//! The inverse of binarisation: spines of markovized nodes are unwound into
//! flat lists of subtrees, and every label loses its annotations.

use vstd::prelude::*;
use crate::binarized::markovize::{
    all_leaves, annotated, bare_leaf, markovizable, markovizable_parts, markovized,
    markovized_parts, shift, tail_root, tail_siblings,
};
use crate::binarized::node::{
    is_symbol, label_text, lemma_label_text_round_trip, parse_label, Binarized, BinarizedView,
    MarkovizedNodeView,
};
use crate::tree::{forest_view, lemma_tree_view, Tree, TreeView};

verus! {

/// Whether `t` is a node that binarisation made: its label is markovized
/// and it has exactly two subtrees.
pub open spec fn is_spine<V>(t: TreeView<BinarizedView<V>>) -> bool {
    t.root.is_markovized() && t.children.len() == 2
}

/// The subtrees that a node had before binarisation, whose binarised subtrees are `kids`:
/// a last subtree that is a spine node gives way to the subtrees that its
/// own subtrees stand for; every other subtree is debinarised in its place.
pub open spec fn debinarized_forest<V>(kids: Seq<TreeView<BinarizedView<V>>>) -> Seq<TreeView<V>>
    decreases kids, 1nat,
{
    if kids.len() > 0 && is_spine(kids.last()) {
        debinarized_each(kids.drop_last()) + debinarized_forest(kids.last().children)
    } else {
        debinarized_each(kids)
    }
}

/// Each tree of `kids`, debinarised.
pub open spec fn debinarized_each<V>(kids: Seq<TreeView<BinarizedView<V>>>) -> Seq<TreeView<V>>
    decreases kids, 0nat,
{
    Seq::new(
        kids.len(),
        |i: int|
            if 0 <= i < kids.len() {
                debinarized(kids[i])
            } else {
                arbitrary()
            },
    )
}

/// The tree that `t` is the binarised form of: the label of every node is
/// its bare symbol, and every spine is unwound.
pub open spec fn debinarized<V>(t: TreeView<BinarizedView<V>>) -> TreeView<V>
    decreases t, 0nat,
{
    TreeView { root: t.root.label(), children: debinarized_forest(t.children) }
}

/// Whether every label of `t` is a symbol.
pub open spec fn is_plain_tree(t: TreeView<Seq<char>>) -> bool
    decreases t,
{
    &&& is_symbol(t.root)
    &&& forall|i: int| 0 <= i < t.children.len() ==> is_plain_tree(#[trigger] t.children[i])
}

/// Whether the last two trees of `kids` are both leaves.
pub open spec fn ends_in_leaves<V>(kids: Seq<TreeView<V>>) -> bool {
    &&& kids.len() >= 2
    &&& kids[kids.len() - 2].children.len() == 0
    &&& kids[kids.len() - 1].children.len() == 0
}

/// Whether binarisation with horizontal context `h` leaves spines below a
/// node with the subtrees `kids` that debinarisation finds again. A node
/// over leaves only is not binarised. A node with at most two subtrees gets
/// no spine. Any other node gets one: its spine nodes must name a sibling
/// (`h` is not 0), and the last of them must itself be binarised (the last
/// two subtrees are not both leaves).
pub open spec fn unwinds(kids: Seq<TreeView<Seq<char>>>, h: nat) -> bool
    decreases kids,
{
    ||| all_leaves(kids)
    ||| {
        &&& kids.len() <= 2 || (h >= 1 && !ends_in_leaves(kids))
        &&& forall|i: int| 0 <= i < kids.len() ==> unwinds((#[trigger] kids[i]).children, h)
    }
}

/// Where no last tree is a spine node, a forest is debinarised tree by tree.
proof fn lemma_forest_without_spine<V>(ms: Seq<TreeView<BinarizedView<V>>>, ks: Seq<TreeView<V>>)
    requires
        ms.len() == ks.len(),
        forall|i: int| 0 <= i < ms.len() ==> debinarized(#[trigger] ms[i]) == ks[i],
        ms.len() > 0 ==> !is_spine(ms.last()),
    ensures
        debinarized_forest(ms) == ks,
{
    assert(debinarized_each(ms) =~= ks);
}

/// What the round trip states of one node.
spec fn comes_back(
    root: Seq<char>,
    kids: Seq<TreeView<Seq<char>>>,
    v: nat,
    h: nat,
    parents: Seq<Seq<char>>,
) -> bool {
    &&& markovizable_parts(root, kids, h)
    &&& debinarized(markovized_parts(root, kids, v, h, parents)) == (TreeView {
        root,
        children: kids,
    })
    &&& !markovized_parts(root, kids, v, h, parents).root.is_markovized()
}

proof fn lemma_round_trip_leaves(
    root: Seq<char>,
    kids: Seq<TreeView<Seq<char>>>,
    v: nat,
    h: nat,
    parents: Seq<Seq<char>>,
)
    requires
        all_leaves(kids),
    ensures
        comes_back(root, kids, v, h, parents),
{
    let m = markovized_parts(root, kids, v, h, parents);
    assert(m.children =~= Seq::new(kids.len(), |i: int| bare_leaf(kids[i].root)));
    assert forall|i: int| 0 <= i < kids.len() implies debinarized(#[trigger] m.children[i])
        == kids[i] by {
        assert(m.children[i] == bare_leaf(kids[i].root));
        let none = bare_leaf(kids[i].root).children;
        assert(debinarized_each(none) =~= Seq::empty());
        assert(debinarized_forest(none) =~= Seq::empty());
        assert(kids[i].children =~= Seq::empty());
    }
    lemma_forest_without_spine(m.children, kids);
}

/// The round trip below one node whose subtrees are not all leaves, and
/// below each node of its spine: `text` is what labels the node, and denotes
/// a label with the symbol `symbol`.
proof fn lemma_round_trip_spine(
    text: Seq<char>,
    symbol: Seq<char>,
    kids: Seq<TreeView<Seq<char>>>,
    v: nat,
    h: nat,
    parents: Seq<Seq<char>>,
)
    requires
        is_symbol(symbol),
        parse_label(text) is Some,
        parse_label(text).unwrap().label() == symbol,
        !all_leaves(kids),
        kids.len() <= 2 || (h >= 1 && !ends_in_leaves(kids)),
        forall|i: int| 0 <= i < kids.len() ==> is_symbol((#[trigger] kids[i]).root),
        forall|i: int|
            0 <= i < kids.len() ==> comes_back(
                (#[trigger] kids[i]).root,
                kids[i].children,
                v,
                h,
                shift(parents, symbol, v),
            ),
    ensures
        markovizable_parts(text, kids, h),
        markovized_parts(text, kids, v, h, parents).root == annotated(
            parse_label(text).unwrap(),
            parents,
        ),
        markovized_parts(text, kids, v, h, parents).children.len() == kids.len() || (
        kids.len() > 2 && markovized_parts(text, kids, v, h, parents).children.len() == 2),
        debinarized_forest(markovized_parts(text, kids, v, h, parents).children) == kids,
    decreases kids.len(),
{
    let m = markovized_parts(text, kids, v, h, parents);
    let below = shift(parents, symbol, v);
    if kids.len() <= 2 {
        assert forall|i: int| 0 <= i < kids.len() implies debinarized(#[trigger] m.children[i])
            == kids[i] by {
            assert(comes_back(kids[i].root, kids[i].children, v, h, below));
        }
        assert(!is_spine(m.children.last())) by {
            let i = kids.len() - 1;
            assert(comes_back(kids[i].root, kids[i].children, v, h, below));
        }
        lemma_forest_without_spine(m.children, kids);
        assert forall|i: int| 0 <= i < kids.len() implies markovizable_parts(
            (#[trigger] kids[i]).root,
            kids[i].children,
            h,
        ) by {
            assert(comes_back(kids[i].root, kids[i].children, v, h, below));
        }
    } else {
        let n = kids.len() as int;
        let rest = kids.subrange(1, n);
        let label = MarkovizedNodeView {
            label: symbol,
            children: tail_siblings(kids, h),
            ancestors: Seq::empty(),
        };
        let tail = tail_root(text, kids, h);
        assert(tail == label_text(BinarizedView::Markovized(label)));
        assert(label.children.len() > 0);
        assert forall|i: int| 0 <= i < label.children.len() implies is_symbol(
            #[trigger] label.children[i],
        ) by {
            assert(is_symbol(kids[i + 1].root));
        }
        lemma_label_text_round_trip(BinarizedView::Markovized(label));
        assert(rest[n - 3] == kids[n - 2]);
        assert(rest[n - 2] == kids[n - 1]);
        assert(!all_leaves(rest)) by {
            if all_leaves(rest) {
                assert(rest[n - 3].children.len() == 0);
                assert(rest[n - 2].children.len() == 0);
            }
        }
        assert forall|i: int| 0 <= i < rest.len() implies is_symbol((#[trigger] rest[i]).root)
            && comes_back(rest[i].root, rest[i].children, v, h, below) by {
            assert(rest[i] == kids[i + 1]);
            assert(comes_back(kids[i + 1].root, kids[i + 1].children, v, h, below));
        }
        lemma_round_trip_spine(tail, symbol, rest, v, h, parents);
        let mt = markovized_parts(tail, rest, v, h, parents);
        assert(mt.root.is_markovized());
        assert(mt.children.len() == 2);
        assert(is_spine(mt));
        assert(comes_back(kids[0].root, kids[0].children, v, h, below));
        assert(m.children.len() == 2);
        assert(m.children.last() == mt);
        assert(m.children.drop_last() =~= seq![m.children[0]]);
        assert(debinarized_each(m.children.drop_last()) =~= seq![kids[0]]);
        assert(debinarized_forest(m.children) =~= seq![kids[0]] + rest);
        assert(seq![kids[0]] + rest =~= kids);
    }
}

proof fn lemma_round_trip_parts(
    root: Seq<char>,
    kids: Seq<TreeView<Seq<char>>>,
    v: nat,
    h: nat,
    parents: Seq<Seq<char>>,
)
    requires
        is_symbol(root),
        forall|i: int| 0 <= i < kids.len() ==> is_plain_tree(#[trigger] kids[i]),
        unwinds(kids, h),
    ensures
        comes_back(root, kids, v, h, parents),
    decreases kids,
{
    if all_leaves(kids) {
        lemma_round_trip_leaves(root, kids, v, h, parents);
    } else {
        let below = shift(parents, root, v);
        lemma_label_text_round_trip(BinarizedView::Bare(root));
        assert forall|i: int| 0 <= i < kids.len() implies is_symbol((#[trigger] kids[i]).root)
            && comes_back(kids[i].root, kids[i].children, v, h, below) by {
            assert(is_plain_tree(kids[i]));
            lemma_round_trip_parts(kids[i].root, kids[i].children, v, h, below);
        }
        lemma_round_trip_spine(root, root, kids, v, h, parents);
    }
}

/// The labels that binarisation reads below a node whose text denotes a
/// label with a symbol, over subtrees of symbols, all denote labels.
proof fn lemma_plain_parts_markovizable(root: Seq<char>, kids: Seq<TreeView<Seq<char>>>, h: nat)
    requires
        parse_label(root) is Some,
        is_symbol(parse_label(root).unwrap().label()),
        forall|i: int| 0 <= i < kids.len() ==> is_plain_tree(#[trigger] kids[i]),
    ensures
        markovizable_parts(root, kids, h),
    decreases kids,
{
    if all_leaves(kids) {
    } else if kids.len() <= 2 {
        assert forall|i: int| 0 <= i < kids.len() implies markovizable_parts(
            (#[trigger] kids[i]).root,
            kids[i].children,
            h,
        ) by {
            assert(is_plain_tree(kids[i]));
            lemma_label_text_round_trip(BinarizedView::Bare(kids[i].root));
            lemma_plain_parts_markovizable(kids[i].root, kids[i].children, h);
        }
    } else {
        let symbol = parse_label(root).unwrap().label();
        let rest = kids.subrange(1, kids.len() as int);
        let label = MarkovizedNodeView {
            label: symbol,
            children: tail_siblings(kids, h),
            ancestors: Seq::empty(),
        };
        let tail = tail_root(root, kids, h);
        if label.children.len() == 0 {
            assert(tail =~= symbol);
            lemma_label_text_round_trip(BinarizedView::Bare(symbol));
        } else {
            assert forall|i: int| 0 <= i < label.children.len() implies is_symbol(
                #[trigger] label.children[i],
            ) by {
                assert(is_plain_tree(kids[i + 1]));
            }
            lemma_label_text_round_trip(BinarizedView::Markovized(label));
        }
        assert forall|i: int| 0 <= i < rest.len() implies is_plain_tree(#[trigger] rest[i]) by {
            assert(rest[i] == kids[i + 1]);
        }
        assert(is_plain_tree(kids[0]));
        lemma_label_text_round_trip(BinarizedView::Bare(kids[0].root));
        lemma_plain_parts_markovizable(kids[0].root, kids[0].children, h);
        lemma_plain_parts_markovizable(tail, rest, h);
    }
}

/// Every tree whose labels are symbols can be binarised, whatever `h` is.
pub proof fn lemma_plain_tree_markovizable(t: TreeView<Seq<char>>, h: nat)
    requires
        is_plain_tree(t),
    ensures
        markovizable(t, h),
{
    lemma_label_text_round_trip(BinarizedView::Bare(t.root));
    lemma_plain_parts_markovizable(t.root, t.children, h);
}

/// Binarising and debinarising gives the tree back.
///
/// This holds of a tree whose labels are symbols and in which binarisation
/// leaves no spine that debinarisation cannot see: see [`unwinds`].
pub proof fn lemma_debinarize_markovize(
    t: TreeView<Seq<char>>,
    v: nat,
    h: nat,
    parents: Seq<Seq<char>>,
)
    requires
        is_plain_tree(t),
        unwinds(t.children, h),
    ensures
        markovizable(t, h),
        debinarized(markovized(t, v, h, parents)) == t,
{
    lemma_round_trip_parts(t.root, t.children, v, h, parents);
}

fn debinarize_each<A: View>(kids: Vec<Tree<Binarized<A>>>) -> (r: Vec<Tree<A>>)
    ensures
        forest_view(r@) == debinarized_each(forest_view(kids@)),
    decreases kids@, 0nat,
{
    let mut out: Vec<Tree<A>> = Vec::new();
    let ghost all = kids@;
    for t in it: kids
        invariant
            it.seq() == all,
            out.len() == it.index(),
            forall|i: int|
                0 <= i < it.index() ==> (#[trigger] out@[i])@ == debinarized(all[i]@),
    {
        out.push(t.debinarize());
    }
    assert(forest_view(out@) =~= debinarized_each(forest_view(all)));
    out
}

fn debinarize_forest<A: View>(kids: Vec<Tree<Binarized<A>>>) -> (r: Vec<Tree<A>>)
    ensures
        forest_view(r@) == debinarized_forest(forest_view(kids@)),
    decreases kids@, 1nat,
{
    let mut kids = kids;
    let ghost all = kids@;
    let n = kids.len();
    proof {
        if n > 0 {
            lemma_tree_view(all[n - 1]);
        }
    }
    if n > 0 && kids[n - 1].root.is_markovized() && kids[n - 1].children.len() == 2 {
        let last = kids.pop().unwrap();
        assert(kids@ =~= all.drop_last());
        assert(forest_view(kids@) =~= forest_view(all).drop_last());
        let mut out = debinarize_each(kids);
        let mut spine = debinarize_forest(last.children);
        let ghost head = out@;
        let ghost tail = spine@;
        out.append(&mut spine);
        assert(forest_view(out@) =~= forest_view(head) + forest_view(tail));
        out
    } else {
        debinarize_each(kids)
    }
}

impl<A: View> Tree<Binarized<A>> {
    /// Undoes binarisation: gives the tree of bare symbols that this tree stands for.
    pub fn debinarize(self) -> (r: Tree<A>)
        ensures
            r@ == debinarized(self@),
        decreases self, 0nat,
    {
        proof {
            lemma_tree_view(self);
        }
        let Tree { root, children } = self;
        let label = match root {
            Binarized::Bare(a) => a,
            Binarized::Markovized(n) => n.label,
        };
        let kids = debinarize_forest(children);
        let out = Tree { root: label, children: kids };
        proof {
            lemma_tree_view(out);
        }
        out
    }
}

} // verus!
