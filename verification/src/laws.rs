//! Laws of the literal notation.
//!
//! The central statement is a round trip: rendering any tree in the
//! nested-braces notation — under any choice of trailing separators — and
//! expanding the result gives back exactly that tree. Since a rendered
//! body lists each node's children in their own order, and the flat-list
//! notation builds a node directly from its label and children, this is at
//! once the agreement of the two notations, the invariance under trailing
//! separators, and the preservation of sibling order at every depth.

use vstd::prelude::*;

use crate::lexer::{lemma_take_label_found, spec_lex};
use crate::parser::{spec_parse_body, spec_parse_entry, spec_parse_tree, spec_str_tree};
use crate::token::TokenView;
use crate::tree::TreeView;

verus! {

/// The token rendering of one entry: a bare label for a leaf, otherwise
/// `label => { body }`. The policy `trail` decides, body by body, whether
/// that body ends in a trailing comma.
pub open spec fn render_entry(t: TreeView, trail: spec_fn(Seq<TreeView>) -> bool) -> Seq<TokenView>
    decreases t,
{
    if t.children.len() == 0 {
        seq![TokenView::Label(t.label)]
    } else {
        seq![TokenView::Label(t.label), TokenView::Arrow, TokenView::LBrace] + render_body(
            t.children,
            trail,
        ) + seq![TokenView::RBrace]
    }
}

/// The token rendering of a body: the entries in their given order,
/// separated by commas, with a comma after the last entry when the policy
/// `trail` says so for this body. An empty body renders as no tokens under
/// every policy.
pub open spec fn render_body(cs: Seq<TreeView>, trail: spec_fn(Seq<TreeView>) -> bool) -> Seq<TokenView>
    decreases cs,
{
    if cs.len() == 0 {
        Seq::empty()
    } else if cs.len() == 1 {
        render_entry(cs[0], trail) + (if trail(cs) {
            seq![TokenView::Comma]
        } else {
            Seq::empty()
        })
    } else {
        render_entry(cs[0], trail) + seq![TokenView::Comma] + render_body(
            cs.subrange(1, cs.len() as int),
            trail,
        )
    }
}

/// A rendered entry is never empty and opens with its node's label.
proof fn lemma_render_entry_shape(t: TreeView, trail: spec_fn(Seq<TreeView>) -> bool)
    ensures
        render_entry(t, trail).len() >= 1,
        render_entry(t, trail)[0] == TokenView::Label(t.label),
{
}

/// Expanding a rendered entry embedded in a larger token sequence yields
/// exactly the rendered tree and stops exactly behind it, provided what
/// follows cannot extend the entry (the sequence ends, or a separator or
/// closing brace follows).
pub proof fn lemma_parse_render_entry(toks: Seq<TokenView>, t: TreeView, k: int, trail: spec_fn(Seq<TreeView>) -> bool)
    requires
        0 <= k,
        k + render_entry(t, trail).len() <= toks.len(),
        toks.subrange(k, k + render_entry(t, trail).len()) == render_entry(t, trail),
        k + render_entry(t, trail).len() == toks.len() || toks[k + render_entry(
            t,
            trail,
        ).len()] is Comma || toks[k + render_entry(t, trail).len()] is RBrace,
    ensures
        spec_parse_entry(toks, k) == Some((t, k + render_entry(t, trail).len())),
    decreases t,
{
    let r = render_entry(t, trail);
    let rlen = r.len() as int;
    assert forall|m: int| 0 <= m < rlen implies toks[k + m] == r[m] by {
        assert(toks.subrange(k, k + rlen)[m] == toks[k + m]);
    }
    if t.children.len() == 0 {
        assert(toks[k] == r[0]);
        assert(t.children =~= Seq::<TreeView>::empty());
        assert(TreeView::leaf(t.label) =~= t);
    } else {
        let b = render_body(t.children, trail);
        let blen = b.len() as int;
        assert(r[0] == TokenView::Label(t.label));
        assert(r[1] == TokenView::Arrow);
        assert(r[2] == TokenView::LBrace);
        assert(r[3 + blen] == TokenView::RBrace);
        assert forall|m: int| 0 <= m < blen implies #[trigger] b[m] == toks[k + 3 + m] by {
            assert(r[3 + m] == b[m]);
        }
        assert(toks.subrange(k + 3, k + 3 + blen) =~= b);
        lemma_parse_render_body(toks, t.children, k + 3, trail);
        assert(TreeView { label: t.label, children: t.children } =~= t);
    }
}

/// Expanding a rendered body embedded just before a closing brace yields
/// exactly the rendered children, in their rendered order, and stops at
/// that brace. This holds at every nesting depth, so sibling order is
/// preserved independently under every parent.
pub proof fn lemma_parse_render_body(toks: Seq<TokenView>, cs: Seq<TreeView>, k: int, trail: spec_fn(Seq<TreeView>) -> bool)
    requires
        0 <= k,
        k + render_body(cs, trail).len() < toks.len(),
        toks.subrange(k, k + render_body(cs, trail).len()) == render_body(cs, trail),
        toks[k + render_body(cs, trail).len()] is RBrace,
    ensures
        spec_parse_body(toks, k) == Some((cs, k + render_body(cs, trail).len())),
    decreases cs,
{
    let b = render_body(cs, trail);
    let blen = b.len() as int;
    assert forall|m: int| 0 <= m < blen implies toks[k + m] == b[m] by {
        assert(toks.subrange(k, k + blen)[m] == toks[k + m]);
    }
    if cs.len() == 0 {
        assert(cs =~= Seq::<TreeView>::empty());
    } else {
        let e = render_entry(cs[0], trail);
        let elen = e.len() as int;
        lemma_render_entry_shape(cs[0], trail);
        if cs.len() == 1 {
            if trail(cs) {
                assert forall|m: int| 0 <= m < elen implies #[trigger] e[m] == toks[k + m] by {
                    assert(b[m] == e[m]);
                }
                assert(toks.subrange(k, k + elen) =~= e);
                assert(toks[k + elen] == b[elen]);
                assert(b[elen] == TokenView::Comma);
                lemma_parse_render_entry(toks, cs[0], k, trail);
                assert(spec_parse_body(toks, k + elen + 1) == Some(
                    (Seq::<TreeView>::empty(), k + elen + 1),
                ));
                assert(seq![cs[0]] + Seq::<TreeView>::empty() =~= cs);
            } else {
                assert(b =~= e);
                lemma_parse_render_entry(toks, cs[0], k, trail);
                assert(seq![cs[0]] =~= cs);
            }
        } else {
            let rest = cs.subrange(1, cs.len() as int);
            let rb = render_body(rest, trail);
            let rblen = rb.len() as int;
            assert forall|m: int| 0 <= m < elen implies #[trigger] e[m] == toks[k + m] by {
                assert(b[m] == e[m]);
            }
            assert(toks.subrange(k, k + elen) =~= e);
            assert(toks[k + elen] == b[elen]);
            assert(b[elen] == TokenView::Comma);
            lemma_parse_render_entry(toks, cs[0], k, trail);
            assert forall|m: int| 0 <= m < rblen implies #[trigger] rb[m] == toks[k + elen + 1
                + m] by {
                assert(b[elen + 1 + m] == rb[m]);
            }
            assert(toks.subrange(k + elen + 1, k + elen + 1 + rblen) =~= rb);
            lemma_parse_render_body(toks, rest, k + elen + 1, trail);
            assert(seq![cs[0]] + rest =~= cs);
        }
    }
}

/// Round trip of the nested-braces notation: expanding the rendering of any
/// tree — under any trailing-separator policy — yields exactly that tree.
/// The flat-list notation builds a node directly from its label and
/// children, so this is also the agreement of the two notations on every
/// shape both can express.
pub proof fn theorem_nested_round_trip(t: TreeView, trail: spec_fn(Seq<TreeView>) -> bool)
    ensures
        spec_parse_tree(render_entry(t, trail)) == Some(t),
{
    let r = render_entry(t, trail);
    lemma_render_entry_shape(t, trail);
    assert(r.subrange(0, r.len() as int) =~= r);
    lemma_parse_render_entry(r, t, 0, trail);
}

/// Whatever bodies are given a trailing separator — all of them, none, or
/// any choice in between — the rendered tokens expand to the same tree.
pub proof fn theorem_trailing_separator_invariance(
    t: TreeView,
    f: spec_fn(Seq<TreeView>) -> bool,
    g: spec_fn(Seq<TreeView>) -> bool,
)
    ensures
        spec_parse_tree(render_entry(t, f)) == spec_parse_tree(render_entry(t, g)),
{
    theorem_nested_round_trip(t, f);
    theorem_nested_round_trip(t, g);
}

/// A bare label expands to a leaf: that label and no children.
pub proof fn theorem_leaf_label(l: Seq<char>)
    ensures
        spec_parse_tree(seq![TokenView::Label(l)]) == Some(TreeView::leaf(l)),
{
}

/// A label fit for the text notation: it contains no quote, so its closing
/// quote is the first quote the lexer meets.
pub open spec fn quote_free(l: Seq<char>) -> bool {
    forall|m: int| 0 <= m < l.len() ==> l[m] != '"'
}

/// Every label in the tree, at every depth, is quote-free.
pub open spec fn renderable(t: TreeView) -> bool
    decreases t,
{
    quote_free(t.label) && renderable_all(t.children)
}

/// Every label in every tree of the sequence is quote-free.
pub open spec fn renderable_all(cs: Seq<TreeView>) -> bool
    decreases cs,
{
    cs.len() == 0 || (renderable(cs[0]) && renderable_all(cs.subrange(1, cs.len() as int)))
}

/// Every label token in the sequence carries a quote-free label.
pub open spec fn labels_quote_free(ts: Seq<TokenView>) -> bool {
    forall|m: int|
        0 <= m < ts.len() ==> (#[trigger] ts[m] matches TokenView::Label(l) ==> quote_free(l))
}

/// The text of one token: a label between quotes, or its fixed characters.
pub open spec fn token_text(t: TokenView) -> Seq<char> {
    match t {
        TokenView::Label(l) => seq!['"'] + l + seq!['"'],
        TokenView::Arrow => seq!['=', '>'],
        TokenView::LBrace => seq!['{'],
        TokenView::RBrace => seq!['}'],
        TokenView::Comma => seq![','],
    }
}

/// The text of a token sequence: each token's text, in order.
pub open spec fn tokens_text(ts: Seq<TokenView>) -> Seq<char>
    decreases ts.len(),
{
    if ts.len() == 0 {
        Seq::empty()
    } else {
        token_text(ts[0]) + tokens_text(ts.skip(1))
    }
}

/// The text rendering of a whole tree: the text of its rendered tokens.
pub open spec fn render_text(t: TreeView, trail: spec_fn(Seq<TreeView>) -> bool) -> Seq<char> {
    tokens_text(render_entry(t, trail))
}

proof fn lemma_quote_free_concat(a: Seq<TokenView>, b: Seq<TokenView>)
    requires
        labels_quote_free(a),
        labels_quote_free(b),
    ensures
        labels_quote_free(a + b),
{
    assert forall|m: int|
        0 <= m < (a + b).len() implies (#[trigger] (a + b)[m] matches TokenView::Label(l)
        ==> quote_free(l)) by {
        if m < a.len() {
            assert((a + b)[m] == a[m]);
        } else {
            assert((a + b)[m] == b[m - a.len()]);
        }
    }
}

/// A renderable tree renders to tokens whose labels are all quote-free.
proof fn lemma_render_entry_quote_free(t: TreeView, trail: spec_fn(Seq<TreeView>) -> bool)
    requires
        renderable(t),
    ensures
        labels_quote_free(render_entry(t, trail)),
    decreases t,
{
    if t.children.len() == 0 {
    } else {
        lemma_render_body_quote_free(t.children, trail);
        lemma_quote_free_concat(
            seq![TokenView::Label(t.label), TokenView::Arrow, TokenView::LBrace],
            render_body(t.children, trail),
        );
        lemma_quote_free_concat(
            seq![TokenView::Label(t.label), TokenView::Arrow, TokenView::LBrace] + render_body(
                t.children,
                trail,
            ),
            seq![TokenView::RBrace],
        );
    }
}

proof fn lemma_render_body_quote_free(cs: Seq<TreeView>, trail: spec_fn(Seq<TreeView>) -> bool)
    requires
        renderable_all(cs),
    ensures
        labels_quote_free(render_body(cs, trail)),
    decreases cs,
{
    if cs.len() == 0 {
    } else if cs.len() == 1 {
        lemma_render_entry_quote_free(cs[0], trail);
        lemma_quote_free_concat(
            render_entry(cs[0], trail),
            if trail(cs) {
                seq![TokenView::Comma]
            } else {
                Seq::empty()
            },
        );
    } else {
        lemma_render_entry_quote_free(cs[0], trail);
        lemma_render_body_quote_free(cs.subrange(1, cs.len() as int), trail);
        lemma_quote_free_concat(render_entry(cs[0], trail), seq![TokenView::Comma]);
        lemma_quote_free_concat(
            render_entry(cs[0], trail) + seq![TokenView::Comma],
            render_body(cs.subrange(1, cs.len() as int), trail),
        );
    }
}

/// The lexer undoes the text rendering of any token sequence whose labels
/// are quote-free: it returns exactly those tokens.
pub proof fn lemma_lex_tokens_text(ts: Seq<TokenView>)
    requires
        labels_quote_free(ts),
    ensures
        spec_lex(tokens_text(ts)) == Some(ts),
    decreases ts.len(),
{
    if ts.len() == 0 {
        assert(tokens_text(ts) =~= Seq::<char>::empty());
    } else {
        let rest = ts.skip(1);
        lemma_lex_tokens_text(rest);
        let s = tokens_text(ts);
        match ts[0] {
            TokenView::LBrace => {
                assert(s[0] == '{');
                assert(s.skip(1) =~= tokens_text(rest));
                assert(seq![ts[0]] + rest =~= ts);
            },
            TokenView::RBrace => {
                assert(s[0] == '}');
                assert(s.skip(1) =~= tokens_text(rest));
                assert(seq![ts[0]] + rest =~= ts);
            },
            TokenView::Comma => {
                assert(s[0] == ',');
                assert(s.skip(1) =~= tokens_text(rest));
                assert(seq![ts[0]] + rest =~= ts);
            },
            TokenView::Arrow => {
                assert(s[0] == '=');
                assert(s[1] == '>');
                assert(s.skip(2) =~= tokens_text(rest));
                assert(seq![ts[0]] + rest =~= ts);
            },
            TokenView::Label(l) => {
                let llen = l.len() as int;
                assert(s[0] == '"');
                assert forall|m: int| 0 <= m < llen implies s.skip(1)[m] != '"' by {
                    assert(token_text(ts[0])[1 + m] == l[m]);
                    assert(s[1 + m] == token_text(ts[0])[1 + m]);
                }
                assert(s.skip(1)[llen] == s[1 + llen]);
                assert(s[1 + llen] == token_text(ts[0])[1 + llen]);
                assert(token_text(ts[0])[1 + llen] == '"');
                lemma_take_label_found(s.skip(1), llen);
                assert(s.skip(1).subrange(0, llen) =~= l);
                assert(s.skip(1).skip(llen + 1) =~= tokens_text(rest));
                assert(tokens_text(rest).len() < s.len());
                assert(seq![ts[0]] + rest =~= ts);
            },
        }
    }
}

/// Round trip of the text notation: for every tree whose labels are
/// quote-free, expanding its text rendering — under any trailing-separator
/// policy — yields exactly that tree.
pub proof fn theorem_text_round_trip(t: TreeView, trail: spec_fn(Seq<TreeView>) -> bool)
    requires
        renderable(t),
    ensures
        spec_str_tree(render_text(t, trail)) == Some(t),
{
    lemma_render_entry_quote_free(t, trail);
    lemma_lex_tokens_text(render_entry(t, trail));
    theorem_nested_round_trip(t, trail);
}

/// Trailing separators, wherever they are put, do not change the expansion
/// of the rendered text.
pub proof fn theorem_text_trailing_separator_invariance(
    t: TreeView,
    f: spec_fn(Seq<TreeView>) -> bool,
    g: spec_fn(Seq<TreeView>) -> bool,
)
    requires
        renderable(t),
    ensures
        spec_str_tree(render_text(t, f)) == spec_str_tree(render_text(t, g)),
{
    theorem_text_round_trip(t, f);
    theorem_text_round_trip(t, g);
}

/// A quote-free label between quotes, alone, expands to the leaf with that
/// label — the same node the flat-list notation builds from the label and
/// no children.
pub proof fn theorem_text_leaf(l: Seq<char>)
    requires
        quote_free(l),
    ensures
        spec_str_tree(seq!['"'] + l + seq!['"']) == Some(TreeView::leaf(l)),
{
    let t = TreeView::leaf(l);
    let none = (|cs: Seq<TreeView>| false);
    theorem_text_round_trip(t, none);
    assert(render_text(t, none) =~= seq!['"'] + l + seq!['"']) by {
        assert(render_entry(t, none) == seq![TokenView::Label(l)]);
        assert(tokens_text(seq![TokenView::Label(l)].skip(1)) =~= Seq::<char>::empty());
    }
}

/// An empty braced body is the same as no body at all: `label => { }`
/// expands to the very tree that `label` alone expands to.
pub proof fn theorem_empty_body_equivalence(l: Seq<char>)
    ensures
        spec_parse_tree(
            seq![TokenView::Label(l), TokenView::Arrow, TokenView::LBrace, TokenView::RBrace],
        ) == spec_parse_tree(seq![TokenView::Label(l)]),
{
    theorem_leaf_label(l);
    let toks = seq![TokenView::Label(l), TokenView::Arrow, TokenView::LBrace, TokenView::RBrace];
    assert(spec_parse_body(toks, 3) == Some((Seq::<TreeView>::empty(), 3int)));
    assert(spec_parse_entry(toks, 0) == Some((TreeView::leaf(l), 4int)));
}

/// The same, in text: `"label" => {}` expands to the very tree that
/// `"label"` alone expands to.
pub proof fn theorem_text_empty_body_equivalence(l: Seq<char>)
    requires
        quote_free(l),
    ensures
        spec_str_tree(seq!['"'] + l + seq!['"', '=', '>', '{', '}']) == spec_str_tree(
            seq!['"'] + l + seq!['"'],
        ),
{
    theorem_text_leaf(l);
    let ts = seq![TokenView::Label(l), TokenView::Arrow, TokenView::LBrace, TokenView::RBrace];
    lemma_lex_tokens_text(ts);
    let ts1 = seq![TokenView::Arrow, TokenView::LBrace, TokenView::RBrace];
    let ts2 = seq![TokenView::LBrace, TokenView::RBrace];
    let ts3 = seq![TokenView::RBrace];
    assert(ts.skip(1) =~= ts1);
    assert(ts1.skip(1) =~= ts2);
    assert(ts2.skip(1) =~= ts3);
    assert(ts3.skip(1) =~= Seq::<TokenView>::empty());
    assert(tokens_text(Seq::<TokenView>::empty()) == Seq::<char>::empty());
    assert(tokens_text(ts3) =~= seq!['}']);
    assert(tokens_text(ts2) =~= seq!['{', '}']);
    assert(tokens_text(ts1) =~= seq!['=', '>', '{', '}']);
    assert(tokens_text(ts) =~= seq!['"'] + l + seq!['"', '=', '>', '{', '}']);
    theorem_empty_body_equivalence(l);
    theorem_leaf_label(l);
}

} // verus!
