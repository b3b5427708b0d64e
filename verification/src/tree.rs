//! Ordered trees over a label type, their leaves and their bracketed text.

use vstd::prelude::*;
use crate::text::push_char;

verus! {

/// A label and the subtrees below it, in order. A leaf has no subtrees.
#[derive(PartialEq, Eq, Debug)]
pub struct Tree<A> {
    pub root: A,
    pub children: Vec<Tree<A>>,
}

/// The mathematical value of a [`Tree`]: its label's view over a sequence of subtrees.
pub ghost struct TreeView<V> {
    pub root: V,
    pub children: Seq<TreeView<V>>,
}

impl<A: View> View for Tree<A> {
    type V = TreeView<A::V>;

    open spec fn view(&self) -> TreeView<A::V>
        decreases self,
    {
        TreeView { root: self.root@, children: forest_view(self.children@) }
    }
}

/// The views of a sequence of trees.
pub open spec fn forest_view<A: View>(f: Seq<Tree<A>>) -> Seq<TreeView<A::V>>
    decreases f,
{
    Seq::new(
        f.len(),
        |i: int|
            if 0 <= i < f.len() {
                f[i]@
            } else {
                arbitrary()
            },
    )
}

/// The views of a sequence of labels.
pub open spec fn label_views<A: View>(s: Seq<A>) -> Seq<A::V> {
    Seq::new(s.len(), |i: int| s[i]@)
}

/// The view of a tree, field by field.
pub proof fn lemma_tree_view<A: View>(t: Tree<A>)
    ensures
        t@.root == t.root@,
        t@.children.len() == t.children@.len(),
        forall|i: int| 0 <= i < t.children@.len() ==> #[trigger] t@.children[i] == t.children@[i]@,
{
    assert(t@.children == forest_view(t.children@));
}

impl<V> TreeView<V> {
    pub open spec fn is_leaf(self) -> bool {
        self.children.len() == 0
    }

    /// The number of nodes of the first `n` subtrees.
    pub open spec fn size_upto(self, n: nat) -> nat
        decreases self, n,
    {
        if 0 < n <= self.children.len() {
            self.size_upto((n - 1) as nat) + self.children[n - 1].size()
        } else {
            0
        }
    }

    /// The number of nodes of the tree.
    pub open spec fn size(self) -> nat
        decreases self, self.children.len() + 1,
    {
        1 + self.size_upto(self.children.len())
    }

    /// The leaf labels below the first `n` subtrees, left to right.
    pub open spec fn leaves_upto(self, n: nat) -> Seq<V>
        decreases self, n,
    {
        if 0 < n <= self.children.len() {
            self.leaves_upto((n - 1) as nat) + self.children[n - 1].leaves()
        } else {
            Seq::empty()
        }
    }

    /// The leaf labels of the tree in depth-first order; a leaf is its own only leaf.
    pub open spec fn leaves(self) -> Seq<V>
        decreases self, self.children.len() + 1,
    {
        if self.children.len() == 0 {
            seq![self.root]
        } else {
            self.leaves_upto(self.children.len())
        }
    }
}

/// The first subtrees of a tree have at most as many nodes as all of them.
pub proof fn lemma_size_upto_grow<V>(t: TreeView<V>, k: nat, n: nat)
    requires
        k <= n <= t.children.len(),
    ensures
        t.size_upto(k) <= t.size_upto(n),
    decreases n,
{
    if k < n {
        lemma_size_upto_grow(t, k, (n - 1) as nat);
    }
}

/// A label that has a text form.
pub trait Label: View + Sized {
    /// The text of a label, given by its view.
    spec fn text(v: Self::V) -> Seq<char>;

    /// Appends the label's text to `out`.
    fn write_to(&self, out: &mut String)
        ensures
            final(out)@ == old(out)@ + Self::text(self@),
    ;
}

impl Label for String {
    open spec fn text(v: Seq<char>) -> Seq<char> {
        v
    }

    fn write_to(&self, out: &mut String) {
        out.append(self.as_str());
    }
}

/// The label of a node in a parse: a word of the sentence, or a non-terminal.
#[derive(Eq, PartialEq, Debug, Clone)]
pub enum NodeType<N, T> {
    Terminal(T),
    NonTerminal(N),
}

pub ghost enum NodeTypeView<N, T> {
    Terminal(T),
    NonTerminal(N),
}

impl<N: View, T: View> View for NodeType<N, T> {
    type V = NodeTypeView<N::V, T::V>;

    open spec fn view(&self) -> NodeTypeView<N::V, T::V> {
        match self {
            NodeType::Terminal(t) => NodeTypeView::Terminal(t@),
            NodeType::NonTerminal(n) => NodeTypeView::NonTerminal(n@),
        }
    }
}

impl Label for NodeType<String, String> {
    open spec fn text(v: NodeTypeView<Seq<char>, Seq<char>>) -> Seq<char> {
        match v {
            NodeTypeView::Terminal(t) => t,
            NodeTypeView::NonTerminal(n) => n,
        }
    }

    fn write_to(&self, out: &mut String) {
        match self {
            NodeType::Terminal(t) => out.append(t.as_str()),
            NodeType::NonTerminal(n) => out.append(n.as_str()),
        }
    }
}

/// The text of the first `n` subtrees of `t`, each behind one space.
pub open spec fn children_text<A: Label>(t: TreeView<A::V>, n: nat) -> Seq<char>
    decreases t, n,
{
    if 0 < n <= t.children.len() {
        children_text::<A>(t, (n - 1) as nat) + seq![' '] + tree_text::<A>(t.children[n - 1])
    } else {
        Seq::empty()
    }
}

/// The bracketed text of a tree: a leaf is its label; an inner node is
/// `(`, its label, its subtrees each behind one space, and `)`.
pub open spec fn tree_text<A: Label>(t: TreeView<A::V>) -> Seq<char>
    decreases t, t.children.len() + 1,
{
    if t.children.len() == 0 {
        A::text(t.root)
    } else {
        seq!['('] + A::text(t.root) + children_text::<A>(t, t.children.len()) + seq![')']
    }
}

impl<A: Clone> Clone for Tree<A> {
    fn clone(&self) -> (r: Self)
        decreases self,
    {
        let mut children: Vec<Tree<A>> = Vec::new();
        let mut k: usize = 0;
        while k < self.children.len()
            invariant
                k <= self.children@.len(),
            decreases self.children@.len() - k,
        {
            children.push(self.children[k].clone());
            k += 1;
        }
        Tree { root: self.root.clone(), children }
    }
}

impl<A> Tree<A> {
    pub fn is_leaf(&self) -> (r: bool)
        ensures
            r == (self.children@.len() == 0),
    {
        self.children.len() == 0
    }
}

impl<A: View> Tree<A> {
    /// The number of nodes of the tree, or nothing where it has more than `limit`.
    pub fn size_within(&self, limit: usize) -> (r: Option<usize>)
        ensures
            match r {
                Some(n) => n == self@.size() && n <= limit,
                None => self@.size() > limit,
            },
        decreases self,
    {
        proof {
            lemma_tree_view(*self);
        }
        if limit == 0 {
            return None;
        }
        let mut total: usize = 1;
        let mut k: usize = 0;
        while k < self.children.len()
            invariant
                k <= self.children@.len(),
                self@.children.len() == self.children@.len(),
                forall|i: int|
                    0 <= i < self.children@.len() ==> #[trigger] self@.children[i]
                        == self.children@[i]@,
                total == 1 + self@.size_upto(k as nat),
                total <= limit,
            decreases self.children@.len() - k,
        {
            proof {
                lemma_size_upto_grow(self@, (k + 1) as nat, self@.children.len());
            }
            match self.children[k].size_within(limit - total) {
                Some(n) => {
                    total = total + n;
                },
                None => {
                    return None;
                },
            }
            k += 1;
        }
        Some(total)
    }

    /// References to the leaf labels, in depth-first order.
    pub fn leaves(&self) -> (r: Vec<&A>)
        ensures
            r@.len() == self@.leaves().len(),
            forall|i: int| 0 <= i < r@.len() ==> (#[trigger] r@[i])@ == self@.leaves()[i],
        decreases self,
    {
        let mut out: Vec<&A> = Vec::new();
        proof {
            lemma_tree_view(*self);
        }
        if self.children.len() == 0 {
            out.push(&self.root);
        } else {
            let mut k: usize = 0;
            while k < self.children.len()
                invariant
                    k <= self.children@.len(),
                    out@.len() == self@.leaves_upto(k as nat).len(),
                    forall|i: int| 0 <= i < out@.len() ==> (#[trigger] out@[i])@ == self@.leaves_upto(k as nat)[i],
                decreases self.children@.len() - k,
            {
                let mut sub = self.children[k].leaves();
                let ghost before = out@;
                let ghost added = sub@;
                out.append(&mut sub);
                proof {
                    lemma_tree_view(*self);
                    assert(self@.leaves_upto((k + 1) as nat) == self@.leaves_upto(k as nat)
                        + self@.children[k as int].leaves());
                    assert forall|i: int| 0 <= i < out@.len() implies (#[trigger] out@[i])@
                        == self@.leaves_upto((k + 1) as nat)[i] by {
                        if i < before.len() {
                            assert(out@[i] == before[i]);
                        } else {
                            assert(out@[i] == added[i - before.len()]);
                        }
                    }
                }
                k += 1;
            }
        }
        out
    }
}

impl<A: Label> Tree<A> {
    /// Appends the bracketed text of the tree to `out`.
    pub fn write_text(&self, out: &mut String)
        ensures
            final(out)@ == old(out)@ + tree_text::<A>(self@),
        decreases self,
    {
        proof {
            lemma_tree_view(*self);
        }
        if self.children.len() == 0 {
            self.root.write_to(out);
        } else {
            push_char(out, '(');
            self.root.write_to(out);
            let mut k: usize = 0;
            while k < self.children.len()
                invariant
                    k <= self.children@.len(),
                    out@ == old(out)@ + seq!['('] + A::text(self@.root) + children_text::<A>(self@, k as nat),
                decreases self.children@.len() - k,
            {
                let ghost before = out@;
                push_char(out, ' ');
                self.children[k].write_text(out);
                proof {
                    lemma_tree_view(*self);
                    assert(children_text::<A>(self@, (k + 1) as nat) == children_text::<A>(
                        self@,
                        k as nat,
                    ) + seq![' '] + tree_text::<A>(self@.children[k as int]));
                    assert(out@ =~= before + (seq![' '] + tree_text::<A>(
                        self@.children[k as int],
                    )));
                    assert(out@ =~= old(out)@ + seq!['('] + A::text(self@.root)
                        + children_text::<A>(self@, (k + 1) as nat));
                }
                k += 1;
            }
            push_char(out, ')');
            proof {
                assert(out@ =~= old(out)@ + tree_text::<A>(self@));
            }
        }
    }

    /// The bracketed text of the tree.
    pub fn to_text(&self) -> (r: String)
        ensures
            r@ == tree_text::<A>(self@),
    {
        let mut out = String::new();
        self.write_text(&mut out);
        out
    }
}

} // verus!
