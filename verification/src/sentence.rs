//! Sentences: sequences of words, and their reader.

use vstd::prelude::*;
use vstd::std_specs::iter::IteratorSpec;
use core::slice::Iter;
use crate::text::{chars_of, find, find_from, string_of, trim, trimmed, CharClass};
use crate::tree::{label_views, lemma_tree_view, NodeType, NodeTypeView, Tree, TreeView};

verus! {

/// The words of a sentence, in order.
#[derive(PartialEq, Eq, Debug, Clone)]
pub struct Sentence<A>(pub Vec<A>);

impl<A: View> View for Sentence<A> {
    type V = Seq<A::V>;

    open spec fn view(&self) -> Seq<A::V> {
        label_views(self.0@)
    }
}

impl<A> Sentence<A> {
    /// The number of words.
    pub fn len(&self) -> (r: usize)
        ensures
            r == self.0@.len(),
    {
        self.0.len()
    }

    /// Whether the sentence has no word.
    pub fn is_empty(&self) -> (r: bool)
        ensures
            r == (self.0@.len() == 0),
    {
        self.0.len() == 0
    }

    /// An iterator over the words, the first word first.
    pub fn iter(&self) -> (r: Iter<'_, A>)
        ensures
            IteratorSpec::remaining(&r) == self.0@.as_ref(),
    {
        self.0.iter()
    }
}

/// The tokens that follow `acc` from `p` on, each behind at least one blank, and where they end.
pub open spec fn parse_more_tokens(t: Seq<char>, p: int, acc: Seq<Seq<char>>) -> (Seq<Seq<char>>, int)
    decreases t.len() - p,
{
    if 0 <= p <= t.len() {
        let pa = find(t, p, CharClass::NotBlank);
        let q = find(t, pa, CharClass::TokenEnd);
        if p < pa < q <= t.len() {
            parse_more_tokens(t, q, acc.push(t.subrange(pa, q)))
        } else {
            (acc, p)
        }
    } else {
        (acc, p)
    }
}

/// The tokens of a trimmed text, and where they end: a token runs up to the
/// next space or tab, and there is at least one.
pub open spec fn parse_tokens(t: Seq<char>) -> Option<(Seq<Seq<char>>, int)> {
    let q = find(t, 0, CharClass::TokenEnd);
    if 0 < q <= t.len() {
        Some(parse_more_tokens(t, q, seq![t.subrange(0, q)]))
    } else {
        None
    }
}

/// The words that a text denotes, if any: its tokens, with nothing left over.
pub open spec fn parse_sentence(text: Seq<char>) -> Option<Seq<Seq<char>>> {
    let t = trimmed(text);
    match parse_tokens(t) {
        Some((words, end)) => if end == t.len() {
            Some(words)
        } else {
            None
        },
        None => None,
    }
}

/// A text that denotes no sentence.
#[derive(Debug, PartialEq, Eq, Clone, Copy)]
pub struct SentenceError;

/// Reads the tokens of the trimmed text `t`.
pub fn read_tokens(t: &Vec<char>) -> (r: Option<(Vec<String>, usize)>)
    ensures
        match r {
            Some(found) => parse_tokens(t@) == Some((label_views(found.0@), found.1 as int))
                && found.1 <= t.len() && found.0@.len() >= 1,
            None => parse_tokens(t@) is None,
        },
{
    let first = find_from(t, 0, CharClass::TokenEnd);
    if first == 0 {
        return None;
    }
    let mut words: Vec<String> = Vec::new();
    words.push(string_of(t, 0, first));
    assert(label_views(words@) =~= seq![t@.subrange(0, first as int)]);
    let mut q: usize = first;
    loop
        invariant
            q <= t.len(),
            words@.len() >= 1,
            parse_tokens(t@) == Some(parse_more_tokens(t@, q as int, label_views(words@))),
        decreases t.len() - q,
    {
        let pa = find_from(t, q, CharClass::NotBlank);
        let q1 = find_from(t, pa, CharClass::TokenEnd);
        if q < pa && pa < q1 {
            let ghost before = label_views(words@);
            words.push(string_of(t, pa, q1));
            assert(label_views(words@) =~= before.push(t@.subrange(pa as int, q1 as int)));
            q = q1;
        } else {
            return Some((words, q));
        }
    }
}

impl Sentence<String> {
    /// Reads a sentence from its text: words separated by blanks.
    pub fn from_str(s: &str) -> (r: Result<Sentence<String>, SentenceError>)
        ensures
            match r {
                Ok(sentence) => parse_sentence(s@) == Some(sentence@) && sentence@.len() >= 1,
                Err(_) => parse_sentence(s@) is None,
            },
    {
        let all = chars_of(s);
        let t = trim(&all);
        match read_tokens(&t) {
            Some((words, end)) => {
                if end == t.len() {
                    Ok(Sentence(words))
                } else {
                    Err(SentenceError)
                }
            },
            None => Err(SentenceError),
        }
    }

    /// The tree that stands for a sentence without a parse: the words as
    /// leaves below one node labelled `NOPARSE`.
    pub fn into_noparse(self) -> (r: Tree<NodeType<String, String>>)
        ensures
            r@ == noparse_tree(self@),
    {
        let mut children: Vec<Tree<NodeType<String, String>>> = Vec::new();
        let ghost all = self.0@;
        for w in it: self.0
            invariant
                it.seq() == all,
                children.len() == it.index(),
                forall|i: int|
                    0 <= i < it.index() ==> (#[trigger] children@[i])@ == word_leaf(all[i]@),
        {
            let leaf = Tree { root: NodeType::Terminal(w), children: Vec::new() };
            proof {
                lemma_tree_view(leaf);
                assert(leaf@.children =~= Seq::empty());
            }
            children.push(leaf);
        }
        let out = Tree {
            root: NodeType::NonTerminal(String::from_str("NOPARSE")),
            children,
        };
        proof {
            lemma_tree_view(out);
            assert(out@.children =~= noparse_tree(label_views(all)).children);
        }
        out
    }
}

/// A leaf that holds the word `w`.
pub open spec fn word_leaf(w: Seq<char>) -> TreeView<NodeTypeView<Seq<char>, Seq<char>>> {
    TreeView { root: NodeTypeView::Terminal(w), children: Seq::empty() }
}

/// The words as leaves below one node labelled `NOPARSE`.
pub open spec fn noparse_tree(words: Seq<Seq<char>>) -> TreeView<
    NodeTypeView<Seq<char>, Seq<char>>,
> {
    TreeView {
        root: NodeTypeView::NonTerminal("NOPARSE"@),
        children: Seq::new(words.len(), |i: int| word_leaf(words[i])),
    }
}

} // verus!
