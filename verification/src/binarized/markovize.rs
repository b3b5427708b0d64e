//! Binarisation: every node with more than two subtrees becomes a
//! right-branching spine of nodes that name the siblings still to come.

use vstd::prelude::*;
use vstd::slice::slice_subrange;
use crate::binarized::node::{
    node_text, parse_label, Binarized, BinarizedView, MarkovizedNode, MarkovizedNodeView,
};
use crate::tree::{forest_view, label_views, lemma_tree_view, Tree, TreeView};

verus! {

/// The ancestors handed down to the subtrees of a node named `augmenter`:
/// none when `v` is at most 1, else the node's name before its own ancestors,
/// cut to `v - 1` names.
pub open spec fn shift(parents: Seq<Seq<char>>, augmenter: Seq<char>, v: nat) -> Seq<Seq<char>> {
    if v <= 1 {
        Seq::empty()
    } else {
        let all = seq![augmenter] + parents;
        if all.len() <= v - 1 {
            all
        } else {
            all.take(v - 1)
        }
    }
}

/// Whether every tree of `kids` is a leaf.
pub open spec fn all_leaves<V>(kids: Seq<TreeView<V>>) -> bool {
    forall|i: int| 0 <= i < kids.len() ==> (#[trigger] kids[i]).children.len() == 0
}

/// A leaf that carries the bare label `root`.
pub open spec fn bare_leaf(root: Seq<char>) -> TreeView<BinarizedView<Seq<char>>> {
    TreeView { root: BinarizedView::Bare(root), children: Seq::empty() }
}

/// The siblings that a label may name.
pub open spec fn siblings_of(b: BinarizedView<Seq<char>>) -> Seq<Seq<char>> {
    match b {
        BinarizedView::Markovized(n) => n.children,
        BinarizedView::Bare(_) => Seq::empty(),
    }
}

/// The label of a binarised node: the symbol and the siblings of `read`,
/// the label that the node's text denotes, with `parents` as ancestors. A
/// label that names neither a sibling nor an ancestor is bare.
pub open spec fn annotated(
    read: BinarizedView<Seq<char>>,
    parents: Seq<Seq<char>>,
) -> BinarizedView<Seq<char>> {
    if siblings_of(read).len() == 0 && parents.len() == 0 {
        BinarizedView::Bare(read.label())
    } else {
        BinarizedView::Markovized(
            MarkovizedNodeView {
                label: read.label(),
                children: siblings_of(read),
                ancestors: parents,
            },
        )
    }
}

/// The labels of `kids[1..]`, at most `h` of them.
pub open spec fn tail_siblings(kids: Seq<TreeView<Seq<char>>>, h: nat) -> Seq<Seq<char>> {
    let n = if kids.len() - 1 <= h {
        kids.len() - 1
    } else {
        h as int
    };
    Seq::new(n as nat, |i: int| kids[i + 1].root)
}

/// The text that labels the node made for `kids[1..]` below a node labelled `root`.
pub open spec fn tail_root(root: Seq<char>, kids: Seq<TreeView<Seq<char>>>, h: nat) -> Seq<char> {
    node_text(
        MarkovizedNodeView {
            label: parse_label(root).unwrap().label(),
            children: tail_siblings(kids, h),
            ancestors: Seq::empty(),
        },
    )
}

/// The binarised form of the tree with label `root` over the subtrees `kids`.
///
/// - Where all of `kids` are leaves, the node and its leaves keep their labels, bare.
/// - Otherwise the label read from `root` gets `parents` as its ancestors:
///   see [`annotated`].
/// - Where there are at most two subtrees, they are binarised below it.
/// - Where there are more, the node gets two subtrees: the binarised first
///   subtree, and the binarised tree of the remaining subtrees under
///   [`tail_root`], which stands for the same constituent and so has the
///   same `parents`.
pub open spec fn markovized_parts(
    root: Seq<char>,
    kids: Seq<TreeView<Seq<char>>>,
    v: nat,
    h: nat,
    parents: Seq<Seq<char>>,
) -> TreeView<BinarizedView<Seq<char>>>
    decreases kids,
{
    if all_leaves(kids) {
        TreeView {
            root: BinarizedView::Bare(root),
            children: Seq::new(kids.len(), |i: int| bare_leaf(kids[i].root)),
        }
    } else {
        let read = parse_label(root).unwrap();
        let below = shift(parents, read.label(), v);
        if kids.len() <= 2 {
            TreeView {
                root: annotated(read, parents),
                children: Seq::new(
                    kids.len(),
                    |i: int|
                        if 0 <= i < kids.len() {
                            markovized_parts(kids[i].root, kids[i].children, v, h, below)
                        } else {
                            arbitrary()
                        },
                ),
            }
        } else {
            TreeView {
                root: annotated(read, parents),
                children: seq![
                    markovized_parts(kids[0].root, kids[0].children, v, h, below),
                    markovized_parts(
                        tail_root(root, kids, h),
                        kids.subrange(1, kids.len() as int),
                        v,
                        h,
                        parents,
                    ),
                ],
            }
        }
    }
}

/// The binarised form of `t` below the ancestors `parents`.
pub open spec fn markovized(
    t: TreeView<Seq<char>>,
    v: nat,
    h: nat,
    parents: Seq<Seq<char>>,
) -> TreeView<BinarizedView<Seq<char>>> {
    markovized_parts(t.root, t.children, v, h, parents)
}

/// Whether every label that binarisation reads denotes a label: those of
/// the nodes that have a subtree with subtrees of its own, and those made
/// for the spine.
pub open spec fn markovizable_parts(root: Seq<char>, kids: Seq<TreeView<Seq<char>>>, h: nat) -> bool
    decreases kids,
{
    if all_leaves(kids) {
        true
    } else if kids.len() <= 2 {
        &&& parse_label(root) is Some
        &&& forall|i: int|
            0 <= i < kids.len() ==> markovizable_parts(
                (#[trigger] kids[i]).root,
                kids[i].children,
                h,
            )
    } else {
        &&& parse_label(root) is Some
        &&& markovizable_parts(kids[0].root, kids[0].children, h)
        &&& markovizable_parts(tail_root(root, kids, h), kids.subrange(1, kids.len() as int), h)
    }
}

/// Whether `t` can be binarised with horizontal context `h`.
pub open spec fn markovizable(t: TreeView<Seq<char>>, h: nat) -> bool {
    markovizable_parts(t.root, t.children, h)
}

/// A node over leaves only keeps its label and its leaves, all bare, whatever `v` and `h` are.
pub proof fn lemma_markovized_preterminal(
    t: TreeView<Seq<char>>,
    v: nat,
    h: nat,
    parents: Seq<Seq<char>>,
)
    requires
        all_leaves(t.children),
    ensures
        markovizable(t, h),
        markovized(t, v, h, parents).root == BinarizedView::Bare(t.root),
        markovized(t, v, h, parents).children.len() == t.children.len(),
        forall|i: int|
            0 <= i < t.children.len() ==> #[trigger] markovized(t, v, h, parents).children[i]
                == bare_leaf(t.children[i].root),
{
}

/// A node with at most two subtrees gets no spine: it keeps the number of
/// its subtrees, and each is the binarised form of the subtree in its place.
pub proof fn lemma_markovized_small(t: TreeView<Seq<char>>, v: nat, h: nat, parents: Seq<Seq<char>>)
    requires
        t.children.len() <= 2,
        !all_leaves(t.children),
    ensures
        markovized(t, v, h, parents).children.len() == t.children.len(),
        forall|i: int|
            0 <= i < t.children.len() ==> #[trigger] markovized(t, v, h, parents).children[i]
                == markovized(
                t.children[i],
                v,
                h,
                shift(parents, parse_label(t.root).unwrap().label(), v),
            ),
{
}

/// The ancestors for the subtrees of a node named `augmenter` whose own ancestors are `parents`.
pub fn augment_parents(parents: &[String], augmenter: String, v: usize) -> (r: Vec<String>)
    ensures
        label_views(r@) == shift(label_views(parents@), augmenter@, v as nat),
{
    let mut out: Vec<String> = Vec::new();
    if v <= 1 {
        assert(label_views(out@) =~= Seq::<Seq<char>>::empty());
        return out;
    }
    let ghost all = seq![augmenter@] + label_views(parents@);
    out.push(augmenter);
    let mut k: usize = 0;
    while k < parents.len() && out.len() < v - 1
        invariant
            k <= parents.len(),
            out.len() == k + 1,
            out.len() <= v - 1,
            all == seq![augmenter@] + label_views(parents@),
            label_views(out@) =~= all.take(k as int + 1),
        decreases parents.len() - k,
    {
        let ghost before = label_views(out@);
        out.push(parents[k].clone());
        assert(label_views(out@) =~= before.push(parents@[k as int]@));
        k += 1;
    }
    proof {
        if all.len() <= v - 1 {
            assert(all.take(all.len() as int) =~= all);
        }
    }
    out
}

fn copy_labels(labels: &[String]) -> (r: Vec<String>)
    ensures
        label_views(r@) == label_views(labels@),
{
    let mut out: Vec<String> = Vec::new();
    let mut k: usize = 0;
    while k < labels.len()
        invariant
            k <= labels.len(),
            out.len() == k,
            forall|i: int| 0 <= i < k ==> (#[trigger] out@[i])@ == labels@[i]@,
        decreases labels.len() - k,
    {
        out.push(labels[k].clone());
        k += 1;
    }
    assert(label_views(out@) =~= label_views(labels@));
    out
}

fn annotate(read: Binarized<String>, parents: &[String]) -> (r: Binarized<String>)
    ensures
        r@ == annotated(read@, label_views(parents@)),
{
    match read {
        Binarized::Markovized(a) => {
            if a.children.len() == 0 && parents.len() == 0 {
                Binarized::Bare(a.label)
            } else {
                Binarized::Markovized(
                    MarkovizedNode {
                        label: a.label,
                        children: a.children,
                        ancestors: copy_labels(parents),
                    },
                )
            }
        },
        Binarized::Bare(a) => {
            if parents.len() == 0 {
                Binarized::Bare(a)
            } else {
                assert(label_views(Seq::<String>::empty()) =~= Seq::<Seq<char>>::empty());
                Binarized::Markovized(
                    MarkovizedNode {
                        label: a,
                        children: Vec::new(),
                        ancestors: copy_labels(parents),
                    },
                )
            }
        },
    }
}

fn all_kids_leaves(kids: &[Tree<String>]) -> (r: bool)
    ensures
        r == all_leaves(forest_view(kids@)),
{
    let mut k: usize = 0;
    while k < kids.len()
        invariant
            k <= kids.len(),
            forall|i: int| 0 <= i < k ==> (#[trigger] forest_view(kids@)[i]).children.len() == 0,
        decreases kids.len() - k,
    {
        proof {
            lemma_tree_view(kids@[k as int]);
        }
        if kids[k].children.len() != 0 {
            assert(forest_view(kids@)[k as int].children.len() != 0);
            return false;
        }
        k += 1;
    }
    true
}

fn markovize_parts(root: &String, kids: &[Tree<String>], v: usize, h: usize, parents: &[String]) -> (r:
    Option<Tree<Binarized<String>>>)
    ensures
        match r {
            Some(t) => markovizable_parts(root@, forest_view(kids@), h as nat) && t@
                == markovized_parts(
                root@,
                forest_view(kids@),
                v as nat,
                h as nat,
                label_views(parents@),
            ),
            None => !markovizable_parts(root@, forest_view(kids@), h as nat),
        },
    decreases kids@,
{
    let ghost fk = forest_view(kids@);
    let ghost par = label_views(parents@);
    if all_kids_leaves(kids) {
        let mut children: Vec<Tree<Binarized<String>>> = Vec::new();
        let mut k: usize = 0;
        while k < kids.len()
            invariant
                k <= kids.len(),
                fk == forest_view(kids@),
                children.len() == k,
                forall|i: int| 0 <= i < k ==> (#[trigger] children@[i])@ == bare_leaf(fk[i].root),
            decreases kids.len() - k,
        {
            let leaf = Tree { root: Binarized::Bare(kids[k].root.clone()), children: Vec::new() };
            proof {
                lemma_tree_view(kids@[k as int]);
                lemma_tree_view(leaf);
                assert(leaf@.children =~= Seq::empty());
            }
            children.push(leaf);
            k += 1;
        }
        let out = Tree { root: Binarized::Bare(root.clone()), children };
        proof {
            lemma_tree_view(out);
            assert(out@.children =~= Seq::new(fk.len(), |i: int| bare_leaf(fk[i].root)));
        }
        Some(out)
    } else {
        let read = match Binarized::from_str(root.as_str()) {
            Ok(b) => b,
            Err(_) => {
                return None;
            },
        };
        let below = augment_parents(parents, read.extract_label().clone(), v);
        if kids.len() <= 2 {
            let mut children: Vec<Tree<Binarized<String>>> = Vec::new();
            let mut k: usize = 0;
            while k < kids.len()
                invariant
                    k <= kids.len(),
                    fk == forest_view(kids@),
                    children.len() == k,
                    !all_leaves(fk),
                    kids.len() <= 2,
                    forall|i: int|
                        0 <= i < k ==> markovizable_parts(
                            (#[trigger] fk[i]).root,
                            fk[i].children,
                            h as nat,
                        ),
                    forall|i: int|
                        0 <= i < k ==> (#[trigger] children@[i])@ == markovized_parts(
                            fk[i].root,
                            fk[i].children,
                            v as nat,
                            h as nat,
                            label_views(below@),
                        ),
                decreases kids.len() - k,
            {
                proof {
                    lemma_tree_view(kids@[k as int]);
                }
                match markovize_parts(
                    &kids[k].root,
                    kids[k].children.as_slice(),
                    v,
                    h,
                    below.as_slice(),
                ) {
                    Some(child) => {
                        children.push(child);
                    },
                    None => {
                        assert(!markovizable_parts(
                            fk[k as int].root,
                            fk[k as int].children,
                            h as nat,
                        ));
                        return None;
                    },
                }
                k += 1;
            }
            let out = Tree { root: annotate(read, parents), children };
            proof {
                lemma_tree_view(out);
                assert(out@.children =~= markovized_parts(
                    root@,
                    fk,
                    v as nat,
                    h as nat,
                    par,
                ).children);
            }
            Some(out)
        } else {
            let mut siblings: Vec<String> = Vec::new();
            let mut k: usize = 1;
            while k < kids.len() && siblings.len() < h
                invariant
                    1 <= k <= kids.len(),
                    fk == forest_view(kids@),
                    siblings.len() == k - 1,
                    siblings.len() <= h,
                    forall|i: int| 0 <= i < k - 1 ==> (#[trigger] siblings@[i])@ == fk[i + 1].root,
                decreases kids.len() - k,
            {
                proof {
                    lemma_tree_view(kids@[k as int]);
                }
                siblings.push(kids[k].root.clone());
                k += 1;
            }
            let augmented = MarkovizedNode {
                label: read.extract_label().clone(),
                children: siblings,
                ancestors: Vec::new(),
            };
            proof {
                assert(label_views(augmented.children@) =~= tail_siblings(fk, h as nat));
                assert(label_views(augmented.ancestors@) =~= Seq::<Seq<char>>::empty());
            }
            let tail_label = augmented.to_text();
            let rest = slice_subrange(kids, 1, kids.len());
            proof {
                lemma_tree_view(kids@[0]);
                assert(forest_view(rest@) =~= fk.subrange(1, fk.len() as int));
            }
            let first = match markovize_parts(
                &kids[0].root,
                kids[0].children.as_slice(),
                v,
                h,
                below.as_slice(),
            ) {
                Some(t) => t,
                None => {
                    return None;
                },
            };
            let second = match markovize_parts(&tail_label, rest, v, h, parents) {
                Some(t) => t,
                None => {
                    return None;
                },
            };
            let mut children: Vec<Tree<Binarized<String>>> = Vec::new();
            children.push(first);
            children.push(second);
            let out = Tree { root: annotate(read, parents), children };
            proof {
                lemma_tree_view(out);
                assert(out@.children =~= markovized_parts(
                    root@,
                    fk,
                    v as nat,
                    h as nat,
                    par,
                ).children);
            }
            Some(out)
        }
    }
}

impl Tree<String> {
    /// Binarises the tree with vertical context `v` and horizontal context `h`
    /// below the ancestors `parents`. A `v` of 0 or 1 annotates no ancestors.
    pub fn markovize(self, v: usize, h: usize, parents: &[String]) -> (r: Tree<Binarized<String>>)
        requires
            markovizable(self@, h as nat),
        ensures
            r@ == markovized(self@, v as nat, h as nat, label_views(parents@)),
    {
        proof {
            lemma_tree_view(self);
        }
        match markovize_parts(&self.root, self.children.as_slice(), v, h, parents) {
            Some(t) => t,
            None => vstd::pervasive::unreached(),
        }
    }

    /// Binarises the tree, or gives nothing where a label that
    /// binarisation reads denotes no label.
    pub fn try_markovize(self, v: usize, h: usize, parents: &[String]) -> (r: Option<
        Tree<Binarized<String>>,
    >)
        ensures
            match r {
                Some(t) => markovizable(self@, h as nat) && t@ == markovized(
                    self@,
                    v as nat,
                    h as nat,
                    label_views(parents@),
                ),
                None => !markovizable(self@, h as nat),
            },
    {
        proof {
            lemma_tree_view(self);
        }
        markovize_parts(&self.root, self.children.as_slice(), v, h, parents)
    }
}

} // verus!
