//! S-expressions: atoms and parenthesised lists, and their reader.

use vstd::prelude::*;
use crate::text::{chars_of, find, find_from, string_of, trim, trimmed, CharClass};
use crate::tree::{lemma_tree_view, Tree, TreeView};

verus! {

/// An atom, or a list of S-expressions.
#[derive(PartialEq, Eq, Debug)]
pub enum SExp<A> {
    Atom(A),
    List(Vec<SExp<A>>),
}

pub ghost enum SExpView<V> {
    Atom(V),
    List(Seq<SExpView<V>>),
}

impl<A: View> View for SExp<A> {
    type V = SExpView<A::V>;

    open spec fn view(&self) -> SExpView<A::V>
        decreases self,
    {
        match self {
            SExp::Atom(a) => SExpView::Atom(a@),
            SExp::List(items) => SExpView::List(sexp_views(items@)),
        }
    }
}

/// The views of a sequence of S-expressions.
pub open spec fn sexp_views<A: View>(items: Seq<SExp<A>>) -> Seq<SExpView<A::V>>
    decreases items,
{
    Seq::new(
        items.len(),
        |i: int|
            if 0 <= i < items.len() {
                items[i]@
            } else {
                arbitrary()
            },
    )
}

impl<V> SExpView<V> {
    /// Whether the S-expression has the shape of a tree: every list in it
    /// starts with an atom, which labels the node.
    pub open spec fn is_tree_shaped(self) -> bool
        decreases self,
    {
        match self {
            SExpView::Atom(_) => true,
            SExpView::List(items) => {
                &&& items.len() > 0
                &&& items[0] is Atom
                &&& forall|i: int| 1 <= i < items.len() ==> (#[trigger] items[i]).is_tree_shaped()
            },
        }
    }

    /// The tree that a tree-shaped S-expression denotes: an atom is a leaf;
    /// a list is a node labelled with its first item over the trees of the other items.
    pub open spec fn tree(self) -> TreeView<V>
        decreases self,
    {
        match self {
            SExpView::Atom(a) => TreeView { root: a, children: Seq::empty() },
            SExpView::List(items) => TreeView {
                root: items[0]->Atom_0,
                children: Seq::new(
                    (items.len() - 1) as nat,
                    |i: int|
                        if 0 <= i < items.len() - 1 {
                            items[i + 1].tree()
                        } else {
                            arbitrary()
                        },
                ),
            },
        }
    }
}

/// The view of an S-expression, case by case.
pub proof fn lemma_sexp_view<A: View>(e: SExp<A>)
    ensures
        match e {
            SExp::Atom(a) => e@ == SExpView::Atom(a@),
            SExp::List(items) => e@ == SExpView::List(sexp_views(items@)) && sexp_views(
                items@,
            ).len() == items@.len() && forall|i: int|
                0 <= i < items@.len() ==> #[trigger] sexp_views(items@)[i] == items@[i]@,
        },
{
}

impl<A: View> SExp<A> {
    /// Whether every list in the S-expression starts with an atom.
    #[verifier::loop_isolation(false)]
    pub fn is_tree_shaped(&self) -> (r: bool)
        ensures
            r == self@.is_tree_shaped(),
        decreases self,
    {
        proof {
            lemma_sexp_view(*self);
        }
        match self {
            SExp::Atom(_) => true,
            SExp::List(items) => {
                if items.len() == 0 {
                    return false;
                }
                proof {
                    lemma_sexp_view(items@[0]);
                }
                match &items[0] {
                    SExp::Atom(_) => {},
                    SExp::List(_) => {
                        return false;
                    },
                }
                let mut k: usize = 1;
                while k < items.len()
                    invariant
                        1 <= k <= items.len(),
                        forall|i: int|
                            1 <= i < k ==> (#[trigger] sexp_views(items@)[i]).is_tree_shaped(),
                    decreases items.len() - k,
                {
                    if !items[k].is_tree_shaped() {
                        assert(!sexp_views(items@)[k as int].is_tree_shaped());
                        return false;
                    }
                    k += 1;
                }
                true
            },
        }
    }
}

impl<A: View> Tree<A> {
    /// The tree that a tree-shaped S-expression denotes.
    #[verifier::loop_isolation(false)]
    pub fn from(sexp: SExp<A>) -> (r: Tree<A>)
        requires
            sexp@.is_tree_shaped(),
        ensures
            r@ == sexp@.tree(),
        decreases sexp,
    {
        proof {
            lemma_sexp_view(sexp);
        }
        match sexp {
            SExp::Atom(a) => {
                let out = Tree { root: a, children: Vec::new() };
                proof {
                    lemma_tree_view(out);
                    assert(out@.children =~= Seq::empty());
                }
                out
            },
            SExp::List(list) => {
                let ghost all = list@;
                let mut root: Option<A> = None;
                let mut children: Vec<Tree<A>> = Vec::new();
                for e in it: list
                    invariant
                        it.seq() == all,
                        sexp_views(all).len() == all.len(),
                        forall|i: int| 0 <= i < all.len() ==> #[trigger] sexp_views(all)[i] == all[i]@,
                        SExpView::List(sexp_views(all)).is_tree_shaped(),
                        it.index() == 0 ==> root is None && children.len() == 0,
                        it.index() > 0 ==> children.len() == it.index() - 1 && root is Some
                            && SExpView::Atom(root->0@) == all[0]@,
                        forall|i: int|
                            0 <= i < children.len() ==> (#[trigger] children@[i])@ == sexp_views(
                                all,
                            )[i + 1].tree(),
                {
                    let ghost k = it.index() as int;
                    assert(e == all[k]);
                    if root.is_none() {
                        proof {
                            lemma_sexp_view(e);
                        }
                        match e {
                            SExp::Atom(a) => {
                                root = Some(a);
                            },
                            SExp::List(_) => {
                                assert(k > 0);
                            },
                        }
                    } else {
                        assert(sexp_views(all)[k].is_tree_shaped());
                        children.push(Tree::from(e));
                    }
                }
                match root {
                    Some(a) => {
                        let out = Tree { root: a, children };
                        proof {
                            lemma_tree_view(out);
                            assert(out@.children =~= sexp@.tree().children);
                        }
                        out
                    },
                    None => {
                        vstd::pervasive::unreached()
                    },
                }
            },
        }
    }
}

/// The S-expression that starts at `p`, behind any whitespace, and the
/// position behind it. A `(` opens a list, which must be closed by a `)`
/// behind its items and any blanks; anything else starts an atom, which
/// runs up to the next of `(`, `)`, space and tab and is not empty.
pub open spec fn parse_sexp_at(t: Seq<char>, p: int) -> Option<(SExpView<Seq<char>>, int)>
    decreases t.len() - p, 0nat,
{
    if 0 <= p <= t.len() {
        let pa = find(t, p, CharClass::NotWhitespace);
        if p <= pa < t.len() && t[pa] == '(' {
            let (items, q) = parse_list_at(t, pa + 1);
            let q2 = find(t, q, CharClass::NotBlank);
            if 0 <= q2 < t.len() && t[q2] == ')' {
                Some((SExpView::List(items), q2 + 1))
            } else {
                None
            }
        } else {
            let q = find(t, pa, CharClass::AtomEnd);
            if pa < q <= t.len() {
                Some((SExpView::Atom(t.subrange(pa, q)), q))
            } else {
                None
            }
        }
    } else {
        None
    }
}

/// The items of a list from `p` on, and where they end: none, or one
/// S-expression and then more, each behind at least one blank.
pub open spec fn parse_list_at(t: Seq<char>, p: int) -> (Seq<SExpView<Seq<char>>>, int)
    decreases t.len() - p, 2nat,
{
    if 0 <= p <= t.len() {
        let pa = find(t, p, CharClass::NotWhitespace);
        if p <= pa <= t.len() {
            match parse_sexp_at(t, pa) {
                Some((first, q)) => if pa < q <= t.len() {
                    parse_more_at(t, q, seq![first])
                } else {
                    (Seq::empty(), pa)
                },
                None => (Seq::empty(), pa),
            }
        } else {
            (Seq::empty(), p)
        }
    } else {
        (Seq::empty(), p)
    }
}

/// The items that follow `acc` from `p` on, and where they end.
pub open spec fn parse_more_at(t: Seq<char>, p: int, acc: Seq<SExpView<Seq<char>>>) -> (
    Seq<SExpView<Seq<char>>>,
    int,
)
    decreases t.len() - p, 1nat,
{
    if 0 <= p <= t.len() {
        let pa = find(t, p, CharClass::NotBlank);
        if p < pa <= t.len() {
            match parse_sexp_at(t, pa) {
                Some((next, q)) => if pa < q <= t.len() {
                    parse_more_at(t, q, acc.push(next))
                } else {
                    (acc, p)
                },
                None => (acc, p),
            }
        } else {
            (acc, p)
        }
    } else {
        (acc, p)
    }
}

/// The S-expression that a text denotes, if any: one S-expression and nothing else
/// but whitespace around it.
pub open spec fn parse_sexp(text: Seq<char>) -> Option<SExpView<Seq<char>>> {
    let t = trimmed(text);
    match parse_sexp_at(t, 0) {
        Some((e, q)) => if q == t.len() {
            Some(e)
        } else {
            None
        },
        None => None,
    }
}

/// A text that denotes no S-expression.
#[derive(Debug, PartialEq, Eq, Clone, Copy)]
pub struct SExpError;

fn read_sexp_at(t: &Vec<char>, p: usize) -> (r: Option<(SExp<String>, usize)>)
    requires
        p <= t.len(),
    ensures
        match r {
            Some(found) => parse_sexp_at(t@, p as int) == Some((found.0@, found.1 as int)) && p
                < found.1 <= t.len(),
            None => parse_sexp_at(t@, p as int) is None,
        },
    decreases t.len() - p, 0nat,
{
    let pa = find_from(t, p, CharClass::NotWhitespace);
    if pa < t.len() && t[pa] == '(' {
        let (items, q) = read_list_at(t, pa + 1);
        let q2 = find_from(t, q, CharClass::NotBlank);
        if q2 < t.len() && t[q2] == ')' {
            Some((SExp::List(items), q2 + 1))
        } else {
            None
        }
    } else {
        let q = find_from(t, pa, CharClass::AtomEnd);
        if q > pa {
            Some((SExp::Atom(string_of(t, pa, q)), q))
        } else {
            None
        }
    }
}

fn read_list_at(t: &Vec<char>, p: usize) -> (r: (Vec<SExp<String>>, usize))
    requires
        p <= t.len(),
    ensures
        parse_list_at(t@, p as int) == (sexp_views(r.0@), r.1 as int),
        p <= r.1 <= t.len(),
    decreases t.len() - p, 2nat,
{
    let mut items: Vec<SExp<String>> = Vec::new();
    let pa = find_from(t, p, CharClass::NotWhitespace);
    match read_sexp_at(t, pa) {
        None => {
            assert(sexp_views(items@) =~= Seq::<SExpView<Seq<char>>>::empty());
            (items, pa)
        },
        Some((first, q0)) => {
            let ghost first_view = first@;
            items.push(first);
            assert(sexp_views(items@) =~= seq![first_view]);
            let mut q: usize = q0;
            loop
                invariant
                    p <= pa < q <= t.len(),
                    parse_list_at(t@, p as int) == parse_more_at(t@, q as int, sexp_views(items@)),
                decreases t.len() - q,
            {
                let q1 = find_from(t, q, CharClass::NotBlank);
                if q1 == q {
                    return (items, q);
                }
                match read_sexp_at(t, q1) {
                    None => {
                        return (items, q);
                    },
                    Some((next, q2)) => {
                        let ghost before = sexp_views(items@);
                        let ghost next_view = next@;
                        items.push(next);
                        assert(sexp_views(items@) =~= before.push(next_view));
                        q = q2;
                    },
                }
            }
        },
    }
}

/// The atom at the start of a text, behind any whitespace, and where it
/// ends in the trimmed text; none where a `(` or a `)` stands there, or nothing.
pub open spec fn parse_atom_prefix(text: Seq<char>) -> Option<(Seq<char>, int)> {
    let t = trimmed(text);
    let q = find(t, 0, CharClass::AtomEnd);
    if 0 < q <= t.len() {
        Some((t.subrange(0, q), q))
    } else {
        None
    }
}

/// Reads one atom from the start of `input`, whitespace around the input
/// aside. Gives what follows the atom, and the atom.
pub fn parse_atom(input: &str) -> (r: Result<(String, SExp<String>), SExpError>)
    ensures
        match r {
            Ok(found) => parse_atom_prefix(input@) == Some(
                (found.1@->Atom_0, trimmed(input@).len() - found.0@.len()),
            ) && found.1 is Atom && found.0@ == trimmed(input@).subrange(
                trimmed(input@).len() - found.0@.len(),
                trimmed(input@).len() as int,
            ),
            Err(_) => parse_atom_prefix(input@) is None,
        },
{
    let all = chars_of(input);
    let t = trim(&all);
    let q = find_from(&t, 0, CharClass::AtomEnd);
    if q > 0 {
        let atom = SExp::Atom(string_of(&t, 0, q));
        let rest = string_of(&t, q, t.len());
        Ok((rest, atom))
    } else {
        Err(SExpError)
    }
}

impl SExp<String> {
    /// Reads an S-expression from its text.
    pub fn from_str(s: &str) -> (r: Result<SExp<String>, SExpError>)
        ensures
            match r {
                Ok(e) => parse_sexp(s@) == Some(e@),
                Err(_) => parse_sexp(s@) is None,
            },
    {
        let all = chars_of(s);
        let t = trim(&all);
        match read_sexp_at(&t, 0) {
            Some((e, q)) => {
                if q == t.len() {
                    Ok(e)
                } else {
                    Err(SExpError)
                }
            },
            None => Err(SExpError),
        }
    }
}

} // verus!
