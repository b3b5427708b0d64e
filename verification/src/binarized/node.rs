//! Labels of binarised trees and their text form
//! `LABEL`, `LABEL|<s1,s2>`, `LABEL^<a1,a2>` or `LABEL|<s1,s2>^<a1,a2>`.

use vstd::prelude::*;
use crate::text::{
    chars_of, find, find_from, in_class, is_whitespace_char, lemma_find_is, lemma_trimmed_same,
    push_char, string_of, trim, trimmed, CharClass,
};
use crate::tree::{label_views, lemma_tree_view, Label, Tree, TreeView};

verus! {

/// A symbol with the siblings and the ancestors it is annotated with.
#[derive(Debug, PartialEq, Eq, Clone)]
pub struct MarkovizedNode<A> {
    pub label: A,
    pub children: Vec<A>,
    pub ancestors: Vec<A>,
}

/// The label of a node in a binarised tree.
#[derive(Debug, PartialEq, Eq, Clone)]
pub enum Binarized<A> {
    Markovized(MarkovizedNode<A>),
    Bare(A),
}

pub ghost struct MarkovizedNodeView<V> {
    pub label: V,
    pub children: Seq<V>,
    pub ancestors: Seq<V>,
}

pub ghost enum BinarizedView<V> {
    Markovized(MarkovizedNodeView<V>),
    Bare(V),
}

impl<A: View> View for MarkovizedNode<A> {
    type V = MarkovizedNodeView<A::V>;

    open spec fn view(&self) -> MarkovizedNodeView<A::V> {
        MarkovizedNodeView {
            label: self.label@,
            children: label_views(self.children@),
            ancestors: label_views(self.ancestors@),
        }
    }
}

impl<A: View> View for Binarized<A> {
    type V = BinarizedView<A::V>;

    open spec fn view(&self) -> BinarizedView<A::V> {
        match self {
            Binarized::Markovized(n) => BinarizedView::Markovized(n@),
            Binarized::Bare(a) => BinarizedView::Bare(a@),
        }
    }
}

impl<V> BinarizedView<V> {
    /// A label is markovized when it names siblings. Ancestors alone do not make it so.
    pub open spec fn is_markovized(self) -> bool {
        match self {
            BinarizedView::Markovized(n) => n.children.len() > 0,
            BinarizedView::Bare(_) => false,
        }
    }

    /// The symbol without its annotations.
    pub open spec fn label(self) -> V {
        match self {
            BinarizedView::Markovized(n) => n.label,
            BinarizedView::Bare(a) => a,
        }
    }
}

impl<A> Binarized<A> {
    /// Whether the label names siblings, which marks a node that binarisation made.
    pub fn is_markovized(&self) -> (r: bool)
        ensures
            r == match *self {
                Binarized::Markovized(n) => n.children@.len() > 0,
                Binarized::Bare(_) => false,
            },
    {
        match self {
            Binarized::Markovized(node) => node.children.len() > 0,
            Binarized::Bare(_) => false,
        }
    }

    /// The symbol without its annotations.
    pub fn extract_label(&self) -> (r: &A)
        ensures
            *r == match *self {
                Binarized::Markovized(n) => n.label,
                Binarized::Bare(a) => a,
            },
    {
        match self {
            Binarized::Markovized(node) => &node.label,
            Binarized::Bare(a) => a,
        }
    }
}

/// The symbols of `items`, separated by commas.
pub open spec fn join_items(items: Seq<Seq<char>>) -> Seq<char>
    decreases items.len(),
{
    if items.len() == 0 {
        Seq::empty()
    } else if items.len() == 1 {
        items[0]
    } else {
        join_items(items.drop_last()) + seq![','] + items.last()
    }
}

/// An annotation: nothing for no symbols, else `mark`, `<`, the symbols and `>`.
pub open spec fn bracket_text(mark: char, items: Seq<Seq<char>>) -> Seq<char> {
    if items.len() == 0 {
        Seq::empty()
    } else {
        seq![mark, '<'] + join_items(items) + seq!['>']
    }
}

/// The text of an annotated symbol: the symbol, its siblings behind `|`, its ancestors behind `^`.
pub open spec fn node_text(n: MarkovizedNodeView<Seq<char>>) -> Seq<char> {
    n.label + bracket_text('|', n.children) + bracket_text('^', n.ancestors)
}

/// The text of a label.
pub open spec fn label_text(b: BinarizedView<Seq<char>>) -> Seq<char> {
    match b {
        BinarizedView::Markovized(n) => node_text(n),
        BinarizedView::Bare(a) => a,
    }
}

/// Where the symbol that starts at `p` inside an annotation ends: a lone
/// comma is a symbol, else the symbol runs up to the next of `| ^ < > ,`
/// and is not empty.
pub open spec fn parse_element(s: Seq<char>, p: int) -> Option<int> {
    if 0 <= p < s.len() && s[p] == ',' {
        Some(p + 1)
    } else {
        let q = find(s, p, CharClass::ItemEnd);
        if q > p {
            Some(q)
        } else {
            None
        }
    }
}

/// The symbols that follow `acc` from `p` on, each behind a comma, and where they end.
pub open spec fn parse_more_items(s: Seq<char>, p: int, acc: Seq<Seq<char>>) -> (Seq<Seq<char>>, int)
    decreases s.len() - p,
{
    if 0 <= p < s.len() && s[p] == ',' {
        match parse_element(s, p + 1) {
            Some(q) => if p < q <= s.len() {
                parse_more_items(s, q, acc.push(s.subrange(p + 1, q)))
            } else {
                (acc, p)
            },
            None => (acc, p),
        }
    } else {
        (acc, p)
    }
}

/// The comma-separated symbols from `p` on, and where they end. There may be none.
pub open spec fn parse_items(s: Seq<char>, p: int) -> (Seq<Seq<char>>, int) {
    match parse_element(s, p) {
        Some(q) => parse_more_items(s, q, seq![s.subrange(p, q)]),
        None => (Seq::empty(), p),
    }
}

/// An annotation at `p`: `mark`, `<`, symbols, `>`. Gives the symbols and the position behind `>`.
pub open spec fn parse_bracket(s: Seq<char>, p: int, mark: char) -> Option<(Seq<Seq<char>>, int)> {
    if 0 <= p && p + 1 < s.len() && s[p] == mark && s[p + 1] == '<' {
        let (items, q) = parse_items(s, p + 2);
        if 0 <= q < s.len() && s[q] == '>' {
            Some((items, q + 1))
        } else {
            None
        }
    } else {
        None
    }
}

/// The label that a text denotes, if any. Whitespace around the text does
/// not count. A text without `|` and `^` is a bare symbol; otherwise the
/// symbol is followed by an optional sibling annotation and an optional
/// ancestor annotation, in this order, and nothing else.
pub open spec fn parse_label(text: Seq<char>) -> Option<BinarizedView<Seq<char>>> {
    let s = trimmed(text);
    let l = find(s, 0, CharClass::LabelEnd);
    if l == 0 {
        None
    } else if l == s.len() {
        Some(BinarizedView::Bare(s))
    } else {
        let (siblings, pa) = match parse_bracket(s, l, '|') {
            Some((items, q)) => (items, q),
            None => (Seq::empty(), l),
        };
        let (ancestors, pb) = match parse_bracket(s, pa, '^') {
            Some((items, q)) => (items, q),
            None => (Seq::empty(), pa),
        };
        if pb == s.len() {
            Some(
                BinarizedView::Markovized(
                    MarkovizedNodeView { label: s.subrange(0, l), children: siblings, ancestors },
                ),
            )
        } else {
            None
        }
    }
}

/// Whether `c` may stand in a symbol: it is none of `| ^ < > , ( )` and no whitespace.
pub open spec fn is_symbol_char(c: char) -> bool {
    &&& c != '|'
    &&& c != '^'
    &&& c != '<'
    &&& c != '>'
    &&& c != ','
    &&& c != '('
    &&& c != ')'
    &&& !is_whitespace_char(c)
}

/// Whether `s` is a symbol: a text that is not empty and holds symbol characters only.
pub open spec fn is_symbol(s: Seq<char>) -> bool {
    &&& s.len() > 0
    &&& forall|i: int| 0 <= i < s.len() ==> is_symbol_char(#[trigger] s[i])
}

/// Whether every text of `items` is a symbol.
pub open spec fn all_symbols(items: Seq<Seq<char>>) -> bool {
    forall|i: int| 0 <= i < items.len() ==> is_symbol(#[trigger] items[i])
}

/// Whether `b` is a label of symbols that its text tells apart from a bare
/// symbol: an annotated one names a sibling or an ancestor.
pub open spec fn is_plain_label(b: BinarizedView<Seq<char>>) -> bool {
    match b {
        BinarizedView::Bare(a) => is_symbol(a),
        BinarizedView::Markovized(n) => {
            &&& is_symbol(n.label)
            &&& all_symbols(n.children)
            &&& all_symbols(n.ancestors)
            &&& n.children.len() + n.ancestors.len() > 0
        },
    }
}

/// The symbols of `rest`, each behind a comma.
pub open spec fn tail_text(rest: Seq<Seq<char>>) -> Seq<char>
    decreases rest.len(),
{
    if rest.len() == 0 {
        Seq::empty()
    } else {
        seq![','] + rest[0] + tail_text(rest.drop_first())
    }
}

proof fn lemma_tail_text_push(rest: Seq<Seq<char>>, x: Seq<char>)
    ensures
        tail_text(rest.push(x)) == tail_text(rest) + seq![','] + x,
    decreases rest.len(),
{
    if rest.len() == 0 {
        assert(rest.push(x).drop_first() =~= Seq::<Seq<char>>::empty());
        assert(tail_text(rest.push(x)) =~= seq![','] + x + tail_text(Seq::empty()));
        assert(tail_text(rest.push(x)) =~= tail_text(rest) + seq![','] + x);
    } else {
        assert(rest.push(x).drop_first() =~= rest.drop_first().push(x));
        lemma_tail_text_push(rest.drop_first(), x);
        assert(tail_text(rest.push(x)) =~= tail_text(rest) + seq![','] + x);
    }
}

proof fn lemma_join_is_head_and_tail(items: Seq<Seq<char>>)
    requires
        items.len() > 0,
    ensures
        join_items(items) == items[0] + tail_text(items.drop_first()),
    decreases items.len(),
{
    if items.len() == 1 {
        assert(items.drop_first() =~= Seq::<Seq<char>>::empty());
        assert(join_items(items) =~= items[0] + tail_text(items.drop_first()));
    } else {
        lemma_join_is_head_and_tail(items.drop_last());
        assert(items.drop_last().drop_first().push(items.last()) =~= items.drop_first());
        lemma_tail_text_push(items.drop_last().drop_first(), items.last());
        assert(join_items(items) =~= items[0] + tail_text(items.drop_first()));
    }
}

/// Reading the symbol `x` that stands at `p` before a comma or a `>`.
proof fn lemma_parse_symbol(s: Seq<char>, p: int, x: Seq<char>)
    requires
        is_symbol(x),
        0 <= p,
        p + x.len() < s.len(),
        s.subrange(p, p + x.len()) == x,
        s[p + x.len()] == ',' || s[p + x.len()] == '>',
    ensures
        parse_element(s, p) == Some(p + x.len()),
{
    assert(s[p] == x[0]) by {
        assert(s.subrange(p, p + x.len())[0] == s[p]);
    }
    assert forall|i: int| p <= i < p + x.len() implies !in_class(
        CharClass::ItemEnd,
        #[trigger] s[i],
    ) by {
        assert(s.subrange(p, p + x.len())[i - p] == s[i]);
        assert(is_symbol_char(x[i - p]));
    }
    lemma_find_is(s, p, p + x.len(), CharClass::ItemEnd);
}

proof fn lemma_parse_more_items(s: Seq<char>, q: int, acc: Seq<Seq<char>>, rest: Seq<Seq<char>>)
    requires
        all_symbols(rest),
        0 <= q,
        q + tail_text(rest).len() < s.len(),
        s.subrange(q, q + tail_text(rest).len()) == tail_text(rest),
        s[q + tail_text(rest).len()] == '>',
    ensures
        parse_more_items(s, q, acc) == (acc + rest, q + tail_text(rest).len()),
    decreases rest.len(),
{
    if rest.len() == 0 {
        assert(acc + rest =~= acc);
    } else {
        let x = rest[0];
        let next = rest.drop_first();
        let t = tail_text(rest);
        let q2 = q + 1 + x.len();
        assert(is_symbol(x));
        assert(t =~= seq![','] + x + tail_text(next));
        assert(s[q] == ',') by {
            assert(s.subrange(q, q + t.len())[0] == s[q]);
        }
        assert(s.subrange(q + 1, q2) =~= x) by {
            assert forall|i: int| 0 <= i < x.len() implies s.subrange(q + 1, q2)[i] == x[i] by {
                assert(s.subrange(q, q + t.len())[i + 1] == s[q + 1 + i]);
            }
        }
        assert(s.subrange(q2, q2 + tail_text(next).len()) =~= tail_text(next)) by {
            assert forall|i: int| 0 <= i < tail_text(next).len() implies s.subrange(
                q2,
                q2 + tail_text(next).len(),
            )[i] == tail_text(next)[i] by {
                assert(s.subrange(q, q + t.len())[i + 1 + x.len()] == s[q2 + i]);
            }
        }
        assert(s[q2] == ',' || s[q2] == '>') by {
            if next.len() > 0 {
                assert(tail_text(next)[0] == ',');
                assert(s.subrange(q2, q2 + tail_text(next).len())[0] == s[q2]);
            }
        }
        lemma_parse_symbol(s, q + 1, x);
        assert(all_symbols(next)) by {
            assert forall|i: int| 0 <= i < next.len() implies is_symbol(#[trigger] next[i]) by {
                assert(next[i] == rest[i + 1]);
            }
        }
        lemma_parse_more_items(s, q2, acc.push(x), next);
        assert(acc.push(x) + next =~= acc + rest);
    }
}

/// Reading an annotation that was written at `p`.
proof fn lemma_parse_bracket(s: Seq<char>, p: int, mark: char, items: Seq<Seq<char>>)
    requires
        all_symbols(items),
        items.len() > 0,
        0 <= p,
        p + bracket_text(mark, items).len() <= s.len(),
        s.subrange(p, p + bracket_text(mark, items).len()) == bracket_text(mark, items),
    ensures
        parse_bracket(s, p, mark) == Some((items, p + bracket_text(mark, items).len())),
{
    let b = bracket_text(mark, items);
    let x = items[0];
    let rest = items.drop_first();
    lemma_join_is_head_and_tail(items);
    assert(b =~= seq![mark, '<'] + x + tail_text(rest) + seq!['>']);
    assert forall|i: int| 0 <= i < b.len() implies s[p + i] == b[i] by {
        assert(s.subrange(p, p + b.len())[i] == s[p + i]);
    }
    assert(s[p] == b[0]);
    assert(s[p + 1] == b[1]);
    let q = p + 2 + x.len();
    assert(s.subrange(p + 2, q) =~= x) by {
        assert forall|i: int| 0 <= i < x.len() implies s.subrange(p + 2, q)[i] == x[i] by {
            assert(s[p + (i + 2)] == b[i + 2]);
        }
    }
    assert(s.subrange(q, q + tail_text(rest).len()) =~= tail_text(rest)) by {
        assert forall|i: int| 0 <= i < tail_text(rest).len() implies s.subrange(
            q,
            q + tail_text(rest).len(),
        )[i] == tail_text(rest)[i] by {
            assert(s[p + (i + 2 + x.len())] == b[i + 2 + x.len()]);
        }
    }
    assert(s[q + tail_text(rest).len()] == '>') by {
        assert(s[p + (b.len() - 1)] == b[b.len() - 1]);
    }
    assert(s[q] == ',' || s[q] == '>') by {
        if rest.len() > 0 {
            assert(tail_text(rest)[0] == ',');
            assert(s.subrange(q, q + tail_text(rest).len())[0] == s[q]);
        }
    }
    assert(is_symbol(x));
    lemma_parse_symbol(s, p + 2, x);
    assert(all_symbols(rest)) by {
        assert forall|i: int| 0 <= i < rest.len() implies is_symbol(#[trigger] rest[i]) by {
            assert(rest[i] == items[i + 1]);
        }
    }
    lemma_parse_more_items(s, q, seq![x], rest);
    assert(seq![x] + rest =~= items);
}

/// Reading what was written gives the label back: the text of a plain label denotes that label.
pub proof fn lemma_label_text_round_trip(b: BinarizedView<Seq<char>>)
    requires
        is_plain_label(b),
    ensures
        parse_label(label_text(b)) == Some(b),
{
    let s = label_text(b);
    match b {
        BinarizedView::Bare(a) => {
            assert(is_symbol_char(a[0]));
            assert(is_symbol_char(a.last()));
            lemma_trimmed_same(a);
            assert forall|i: int| 0 <= i < a.len() implies !in_class(
                CharClass::LabelEnd,
                #[trigger] a[i],
            ) by {
                assert(is_symbol_char(a[i]));
            }
            lemma_find_is(a, 0, a.len() as int, CharClass::LabelEnd);
        },
        BinarizedView::Markovized(n) => {
            let b1 = bracket_text('|', n.children);
            let b2 = bracket_text('^', n.ancestors);
            let l = n.label.len() as int;
            assert(s =~= n.label + b1 + b2);
            assert(is_symbol_char(n.label[0]));
            assert(s[0] == n.label[0]);
            assert(s.last() == '>');
            lemma_trimmed_same(s);
            assert forall|i: int| 0 <= i < l implies !in_class(
                CharClass::LabelEnd,
                #[trigger] s[i],
            ) by {
                assert(is_symbol_char(n.label[i]));
            }
            assert(in_class(CharClass::LabelEnd, s[l])) by {
                if n.children.len() > 0 {
                    assert(s[l] == b1[0]);
                } else {
                    assert(s[l] == b2[0]);
                }
            }
            lemma_find_is(s, 0, l, CharClass::LabelEnd);
            assert(s.subrange(0, l) =~= n.label);
            let pa = l + b1.len();
            if n.children.len() > 0 {
                assert(s.subrange(l, pa) =~= b1);
                lemma_parse_bracket(s, l, '|', n.children);
            } else {
                assert(s[l] == '^');
                assert(n.children =~= Seq::<Seq<char>>::empty());
            }
            if n.ancestors.len() > 0 {
                assert(s.subrange(pa, pa + b2.len()) =~= b2);
                lemma_parse_bracket(s, pa, '^', n.ancestors);
            } else {
                assert(n.ancestors =~= Seq::<Seq<char>>::empty());
            }
        },
    }
}

/// A text that denotes no label.
#[derive(Debug, PartialEq, Eq, Clone, Copy)]
pub struct LabelError;

fn read_element(t: &Vec<char>, p: usize) -> (r: Option<usize>)
    requires
        p <= t.len(),
    ensures
        match r {
            Some(q) => parse_element(t@, p as int) == Some(q as int) && p < q <= t.len(),
            None => parse_element(t@, p as int) is None,
        },
{
    if p < t.len() && t[p] == ',' {
        Some(p + 1)
    } else {
        let q = find_from(t, p, CharClass::ItemEnd);
        if q > p {
            Some(q)
        } else {
            None
        }
    }
}

fn read_items(t: &Vec<char>, p: usize) -> (r: (Vec<String>, usize))
    requires
        p <= t.len(),
    ensures
        (label_views(r.0@), r.1 as int) == parse_items(t@, p as int),
        p <= r.1 <= t.len(),
{
    let mut items: Vec<String> = Vec::new();
    match read_element(t, p) {
        None => {
            assert(label_views(items@) =~= Seq::<Seq<char>>::empty());
            (items, p)
        },
        Some(first) => {
            items.push(string_of(t, p, first));
            assert(label_views(items@) =~= seq![t@.subrange(p as int, first as int)]);
            let mut q: usize = first;
            loop
                invariant
                    p <= q <= t.len(),
                    parse_items(t@, p as int) == parse_more_items(t@, q as int, label_views(items@)),
                decreases t.len() - q,
            {
                if q < t.len() && t[q] == ',' {
                    match read_element(t, q + 1) {
                        Some(next) => {
                            let ghost before = label_views(items@);
                            items.push(string_of(t, q + 1, next));
                            assert(label_views(items@) =~= before.push(
                                t@.subrange(q as int + 1, next as int),
                            ));
                            q = next;
                        },
                        None => {
                            return (items, q);
                        },
                    }
                } else {
                    return (items, q);
                }
            }
        },
    }
}

fn read_bracket(t: &Vec<char>, p: usize, mark: char) -> (r: Option<(Vec<String>, usize)>)
    requires
        p <= t.len(),
    ensures
        match r {
            Some(found) => parse_bracket(t@, p as int, mark) == Some(
                (label_views(found.0@), found.1 as int),
            ) && p <= found.1 <= t.len(),
            None => parse_bracket(t@, p as int, mark) is None,
        },
{
    if t.len() >= 2 && p < t.len() - 1 && t[p] == mark && t[p + 1] == '<' {
        let (items, q) = read_items(t, p + 2);
        if q < t.len() && t[q] == '>' {
            Some((items, q + 1))
        } else {
            None
        }
    } else {
        None
    }
}

impl Binarized<String> {
    /// Reads a label from its text.
    pub fn from_str(s: &str) -> (r: Result<Binarized<String>, LabelError>)
        ensures
            match r {
                Ok(b) => parse_label(s@) == Some(b@),
                Err(_) => parse_label(s@) is None,
            },
    {
        let all = chars_of(s);
        let t = trim(&all);
        let l = find_from(&t, 0, CharClass::LabelEnd);
        if l == 0 {
            Err(LabelError)
        } else if l == t.len() {
            let label = string_of(&t, 0, l);
            assert(label@ =~= t@);
            Ok(Binarized::Bare(label))
        } else {
            let label = string_of(&t, 0, l);
            let (children, pa) = match read_bracket(&t, l, '|') {
                Some(found) => found,
                None => (Vec::new(), l),
            };
            let (ancestors, pb) = match read_bracket(&t, pa, '^') {
                Some(found) => found,
                None => (Vec::new(), pa),
            };
            assert(label_views(Seq::<String>::empty()) =~= Seq::<Seq<char>>::empty());
            if pb == t.len() {
                Ok(Binarized::Markovized(MarkovizedNode { label, children, ancestors }))
            } else {
                Err(LabelError)
            }
        }
    }
}

/// Whether every label of `t` denotes a label.
pub open spec fn labels_parse(t: TreeView<Seq<char>>) -> bool
    decreases t,
{
    &&& parse_label(t.root) is Some
    &&& forall|i: int| 0 <= i < t.children.len() ==> labels_parse(#[trigger] t.children[i])
}

/// The tree `t` with every label read from its text.
pub open spec fn parsed_labels(t: TreeView<Seq<char>>) -> TreeView<BinarizedView<Seq<char>>>
    decreases t,
{
    TreeView {
        root: parse_label(t.root).unwrap(),
        children: Seq::new(
            t.children.len(),
            |i: int|
                if 0 <= i < t.children.len() {
                    parsed_labels(t.children[i])
                } else {
                    arbitrary()
                },
        ),
    }
}

#[verifier::loop_isolation(false)]
fn parse_tree_labels(t: &Tree<String>) -> (r: Option<Tree<Binarized<String>>>)
    ensures
        match r {
            Some(out) => labels_parse(t@) && out@ == parsed_labels(t@),
            None => !labels_parse(t@),
        },
    decreases t,
{
    proof {
        lemma_tree_view(*t);
    }
    let root = match Binarized::from_str(t.root.as_str()) {
        Ok(b) => b,
        Err(_) => {
            return None;
        },
    };
    let mut children: Vec<Tree<Binarized<String>>> = Vec::new();
    let mut k: usize = 0;
    while k < t.children.len()
        invariant
            k <= t.children.len(),
            children.len() == k,
            forall|i: int| 0 <= i < k ==> labels_parse(#[trigger] t@.children[i]),
            forall|i: int| 0 <= i < k ==> (#[trigger] children@[i])@ == parsed_labels(t@.children[i]),
        decreases t.children.len() - k,
    {
        match parse_tree_labels(&t.children[k]) {
            Some(child) => {
                children.push(child);
            },
            None => {
                assert(!labels_parse(t@.children[k as int]));
                return None;
            },
        }
        k += 1;
    }
    let out = Tree { root, children };
    proof {
        lemma_tree_view(out);
        assert(out@.children =~= parsed_labels(t@).children);
    }
    Some(out)
}

impl Tree<String> {
    /// Reads every label of the tree from its text.
    pub fn parse_markovized(self) -> (r: Tree<Binarized<String>>)
        requires
            labels_parse(self@),
        ensures
            r@ == parsed_labels(self@),
    {
        match parse_tree_labels(&self) {
            Some(t) => t,
            None => vstd::pervasive::unreached(),
        }
    }

    /// Reads every label of the tree from its text, or gives nothing where
    /// a label denotes no label.
    pub fn try_parse_markovized(self) -> (r: Option<Tree<Binarized<String>>>)
        ensures
            match r {
                Some(t) => labels_parse(self@) && t@ == parsed_labels(self@),
                None => !labels_parse(self@),
            },
    {
        parse_tree_labels(&self)
    }
}

/// Appends `mark`, `<`, the symbols and `>` to `out`, or nothing when there are no symbols.
fn write_bracket(out: &mut String, mark: char, items: &Vec<String>)
    ensures
        final(out)@ == old(out)@ + bracket_text(mark, label_views(items@)),
{
    if items.len() > 0 {
        push_char(out, mark);
        push_char(out, '<');
        let mut k: usize = 0;
        while k < items.len()
            invariant
                k <= items.len(),
                out@ == old(out)@ + seq![mark, '<'] + join_items(label_views(items@).take(k as int)),
            decreases items.len() - k,
        {
            let ghost before = out@;
            if k > 0 {
                push_char(out, ',');
            }
            out.append(items[k].as_str());
            proof {
                let now = label_views(items@).take(k as int + 1);
                assert(now.drop_last() =~= label_views(items@).take(k as int));
                assert(now.last() == items@[k as int]@);
                if k == 0 {
                    assert(join_items(label_views(items@).take(0)) =~= Seq::<char>::empty());
                    assert(out@ =~= old(out)@ + seq![mark, '<'] + join_items(now));
                } else {
                    assert(out@ =~= old(out)@ + seq![mark, '<'] + join_items(now));
                }
            }
            k += 1;
        }
        push_char(out, '>');
        proof {
            assert(label_views(items@).take(items.len() as int) =~= label_views(items@));
            assert(out@ =~= old(out)@ + bracket_text(mark, label_views(items@)));
        }
    } else {
        assert(out@ =~= old(out)@ + bracket_text(mark, label_views(items@)));
    }
}

impl MarkovizedNode<String> {
    /// The text of the annotated symbol.
    pub fn to_text(&self) -> (r: String)
        ensures
            r@ == node_text(self@),
    {
        let mut out = String::new();
        self.write_to(&mut out);
        out
    }
}

impl Label for MarkovizedNode<String> {
    open spec fn text(v: MarkovizedNodeView<Seq<char>>) -> Seq<char> {
        node_text(v)
    }

    fn write_to(&self, out: &mut String) {
        out.append(self.label.as_str());
        write_bracket(out, '|', &self.children);
        write_bracket(out, '^', &self.ancestors);
        proof {
            assert(out@ =~= old(out)@ + node_text(self@));
        }
    }
}

impl Binarized<String> {
    /// The text of the label.
    pub fn to_text(&self) -> (r: String)
        ensures
            r@ == label_text(self@),
    {
        let mut out = String::new();
        self.write_to(&mut out);
        out
    }
}

impl Label for Binarized<String> {
    open spec fn text(v: BinarizedView<Seq<char>>) -> Seq<char> {
        label_text(v)
    }

    fn write_to(&self, out: &mut String) {
        match self {
            Binarized::Markovized(n) => n.write_to(out),
            Binarized::Bare(a) => out.append(a.as_str()),
        }
    }
}

} // verus!
