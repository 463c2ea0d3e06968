//! The tree type and its mathematical model.
//!
//! A `StrTree` is a node with a string label and an ordered sequence of owned
//! child nodes; a leaf is a node with no children. Its model is `TreeView`:
//! the same shape over `Seq<char>` labels and `Seq` children. Construction
//! never fails and there is no mutation: a tree is built in one step from a
//! label and a finished children sequence.

use vstd::prelude::*;

verus! {

broadcast use vstd::std_specs::vec::group_vec_axioms;

/// Mathematical model of a tree node: a label and its children, in order.
#[verifier::ext_equal]
pub struct TreeView {
    pub label: Seq<char>,
    pub children: Seq<TreeView>,
}

impl TreeView {
    /// The model of a leaf: the given label and no children.
    pub open spec fn leaf(label: Seq<char>) -> TreeView {
        TreeView { label, children: Seq::empty() }
    }
}

/// A tree node: a string label and an ordered sequence of owned children.
///
/// Two trees are equal exactly when their labels are equal and their
/// children sequences are equal element-wise, in order, recursively.
#[derive(Debug, PartialEq)]
pub struct StrTree {
    pub elmt: String,
    pub children: Vec<StrTree>,
}

/// The model of a node: its label's characters and its children's models,
/// in the same order.
pub open spec fn tree_view(t: StrTree) -> TreeView
    decreases t,
    via tree_view_decreases
{
    TreeView { label: t.elmt@, children: trees_view(t.children@) }
}

/// The models of a sequence of nodes, in the same order.
pub open spec fn trees_view(s: Seq<StrTree>) -> Seq<TreeView>
    decreases s,
{
    if s.len() == 0 {
        Seq::empty()
    } else {
        trees_view(s.subrange(0, s.len() - 1)).push(tree_view(s[s.len() - 1]))
    }
}

#[via_fn]
proof fn tree_view_decreases(t: StrTree) {
    assert(decreases_to!(t => t.children));
    assert(decreases_to!(t.children => t.children@));
}

/// Appending a node to a sequence appends its model to the sequence's model.
pub proof fn lemma_trees_view_push(s: Seq<StrTree>, t: StrTree)
    ensures
        trees_view(s.push(t)) == trees_view(s).push(tree_view(t)),
{
    assert(s.push(t).subrange(0, s.push(t).len() - 1) =~= s);
    assert(s.push(t)[s.push(t).len() - 1] == t);
}

/// `trees_view` maps the model over the sequence element-wise.
pub proof fn lemma_trees_view(s: Seq<StrTree>)
    ensures
        trees_view(s).len() == s.len(),
        forall|i: int| 0 <= i < s.len() ==> trees_view(s)[i] == tree_view(s[i]),
    decreases s.len(),
{
    if s.len() > 0 {
        lemma_trees_view(s.subrange(0, s.len() - 1));
    }
}

impl View for StrTree {
    type V = TreeView;

    open spec fn view(&self) -> TreeView {
        tree_view(*self)
    }
}

impl DeepView for StrTree {
    type V = TreeView;

    open spec fn deep_view(&self) -> TreeView {
        tree_view(*self)
    }
}

impl StrTree {
    /// Builds a node from a label and a finished children sequence, taking
    /// ownership of the children. Always succeeds; the label is not
    /// inspected, and an empty children sequence makes a leaf.
    pub fn new(elmt: &str, children: Vec<StrTree>) -> (t: StrTree)
        ensures
            t@ == (TreeView { label: elmt@, children: children.deep_view() }),
    {
        let t = StrTree { elmt: elmt.to_owned(), children };
        proof {
            lemma_trees_view(t.children@);
            assert(t@.children =~= t.children.deep_view());
        }
        t
    }

    /// Structural equality, computed: labels equal and children equal
    /// element-wise, in order, recursively — exactly equality of the models.
    pub fn tree_eq(&self, other: &StrTree) -> (r: bool)
        ensures
            r == (self@ == other@),
        decreases *self,
    {
        proof {
            lemma_trees_view(self.children@);
            lemma_trees_view(other.children@);
        }
        if self.elmt != other.elmt {
            return false;
        }
        let n = self.children.len();
        if n != other.children.len() {
            return false;
        }
        let mut i: usize = 0;
        while i < n
            invariant
                0 <= i <= n,
                n == self.children.len() == other.children.len(),
                self.elmt@ == other.elmt@,
                forall|k: int|
                    0 <= k < i ==> tree_view(#[trigger] self.children@[k]) == tree_view(
                        other.children@[k],
                    ),
            decreases n - i,
        {
            proof {
                assert(decreases_to!(*self => self.children));
                assert(decreases_to!(self.children => self.children@));
            }
            if !self.children[i].tree_eq(&other.children[i]) {
                proof {
                    lemma_trees_view(self.children@);
                    lemma_trees_view(other.children@);
                    assert(trees_view(self.children@)[i as int] != trees_view(other.children@)[
                        i as int
                    ]);
                }
                return false;
            }
            i = i + 1;
        }
        proof {
            lemma_trees_view(self.children@);
            lemma_trees_view(other.children@);
            assert(trees_view(self.children@) =~= trees_view(other.children@));
        }
        true
    }
}

/// The flat-list notation: one rule for a bare label (a leaf) and one rule
/// for a label with one or more already-built children; the two rules share
/// this single entry point, with an empty vector standing for "label only".
pub fn str_tree_simple(elmt: &str, children: Vec<StrTree>) -> (t: StrTree)
    ensures
        t@ == (TreeView { label: elmt@, children: children.deep_view() }),
{
    StrTree::new(elmt, children)
}

} // verus!
