//! Unknown words: counting the words of trees, putting `UNK` or a
//! signature in the place of the words that are too rare or that the
//! lexicon lacks, and putting the words back into a parse.

use vstd::prelude::*;
use crate::grammar::symbols::{interned, no_symbol_twice, SymbolTable};
use crate::grammar::tables::{lexical_get, lexical_rules, LexicalRules};
use crate::sentence::Sentence;
use crate::signature::{signature_of, signature_text, UnkSignature};
use crate::tree::{label_views, lemma_tree_view, NodeType, NodeTypeView, Tree, TreeView};

verus! {

/// A label that can be copied.
pub trait CopyLabel: View + Sized {
    /// A copy of the label.
    fn copy(&self) -> (r: Self)
        ensures
            r@ == self@,
    ;
}

impl CopyLabel for String {
    fn copy(&self) -> (r: Self) {
        self.clone()
    }
}

impl CopyLabel for NodeType<String, String> {
    fn copy(&self) -> (r: Self) {
        match self {
            NodeType::Terminal(t) => NodeType::Terminal(t.clone()),
            NodeType::NonTerminal(n) => NodeType::NonTerminal(n.clone()),
        }
    }
}

/// The tree `t` with the labels `leaves[from..]` in the place of the labels
/// of its leaves, in order. The shape and the other labels stay.
pub open spec fn relabelled<V>(t: TreeView<V>, leaves: Seq<V>, from: int) -> TreeView<V>
    decreases t,
{
    if t.children.len() == 0 {
        TreeView { root: leaves[from], children: Seq::empty() }
    } else {
        TreeView {
            root: t.root,
            children: Seq::new(
                t.children.len(),
                |k: int|
                    if 0 <= k < t.children.len() {
                        relabelled(t.children[k], leaves, from + t.leaves_upto(k as nat).len())
                    } else {
                        arbitrary()
                    },
            ),
        }
    }
}

/// The number of leaves below the first `n` subtrees is the sum of their numbers of leaves.
pub proof fn lemma_leaves_upto_step<V>(t: TreeView<V>, n: nat)
    requires
        n < t.children.len(),
    ensures
        t.leaves_upto(n + 1).len() == t.leaves_upto(n).len() + t.children[n as int].leaves().len(),
        t.leaves_upto(n).len() <= t.leaves_upto(t.children.len()).len(),
        t.leaves_upto(n + 1).len() <= t.leaves_upto(t.children.len()).len(),
{
    lemma_leaves_upto_grow(t, n + 1, t.children.len());
    lemma_leaves_upto_grow(t, n, t.children.len());
}

proof fn lemma_leaves_upto_grow<V>(t: TreeView<V>, k: nat, n: nat)
    requires
        k <= n <= t.children.len(),
    ensures
        t.leaves_upto(k).len() <= t.leaves_upto(n).len(),
    decreases n,
{
    if k < n {
        lemma_leaves_upto_grow(t, k, (n - 1) as nat);
    }
}

/// The leaves of a relabelled tree are the labels it was given.
pub proof fn lemma_relabelled_leaves<V>(t: TreeView<V>, leaves: Seq<V>, from: int)
    requires
        0 <= from,
        from + t.leaves().len() <= leaves.len(),
    ensures
        relabelled(t, leaves, from).leaves() == leaves.subrange(
            from,
            from + t.leaves().len(),
        ),
    decreases t, t.children.len() + 1,
{
    let r = relabelled(t, leaves, from);
    if t.children.len() == 0 {
        assert(r.leaves() =~= leaves.subrange(from, from + 1));
    } else {
        lemma_relabelled_upto(t, leaves, from, t.children.len());
    }
}

proof fn lemma_relabelled_upto<V>(t: TreeView<V>, leaves: Seq<V>, from: int, n: nat)
    requires
        0 <= from,
        t.children.len() > 0,
        n <= t.children.len(),
        from + t.leaves().len() <= leaves.len(),
    ensures
        relabelled(t, leaves, from).leaves_upto(n) == leaves.subrange(
            from,
            from + t.leaves_upto(n).len(),
        ),
    decreases t, n,
{
    let r = relabelled(t, leaves, from);
    if n > 0 {
        let k = (n - 1) as nat;
        lemma_leaves_upto_step(t, k);
        lemma_relabelled_upto(t, leaves, from, k);
        let at = from + t.leaves_upto(k).len();
        lemma_relabelled_leaves(t.children[k as int], leaves, at);
        assert(r.children[k as int] == relabelled(t.children[k as int], leaves, at));
        assert(r.leaves_upto(n) =~= leaves.subrange(from, from + t.leaves_upto(n).len()));
    } else {
        assert(r.leaves_upto(n) =~= leaves.subrange(from, from + t.leaves_upto(n).len()));
    }
}

/// A copy of the tree with the labels `leaves[from..]` on its leaves, and the number of its leaves.
#[verifier::loop_isolation(false)]
fn relabel<A: CopyLabel>(t: &Tree<A>, leaves: &Vec<A>, from: usize) -> (r: (Tree<A>, usize))
    requires
        from + t@.leaves().len() <= leaves@.len(),
    ensures
        r.0@ == relabelled(t@, label_views(leaves@), from as int),
        r.1 == t@.leaves().len(),
    decreases t,
{
    proof {
        lemma_tree_view(*t);
    }
    let total = leaves.len();
    if t.children.len() == 0 {
        let out = Tree { root: leaves[from].copy(), children: Vec::new() };
        proof {
            lemma_tree_view(out);
            assert(out@.children =~= Seq::empty());
        }
        (out, 1)
    } else {
        let mut children: Vec<Tree<A>> = Vec::new();
        let mut done: usize = 0;
        let mut k: usize = 0;
        while k < t.children.len()
            invariant
                k <= t.children.len(),
                children@.len() == k,
                done == t@.leaves_upto(k as nat).len(),
                from + done <= leaves@.len(),
                forall|i: int|
                    0 <= i < k ==> (#[trigger] children@[i])@ == relabelled(
                        t@.children[i],
                        label_views(leaves@),
                        from + t@.leaves_upto(i as nat).len(),
                    ),
            decreases t.children.len() - k,
        {
            proof {
                lemma_leaves_upto_step(t@, k as nat);
                assert(t@.leaves() == t@.leaves_upto(t@.children.len()));
            }
            let (child, count) = relabel(&t.children[k], leaves, from + done);
            children.push(child);
            done = done + count;
            k += 1;
        }
        let out = Tree { root: t.root.copy(), children };
        proof {
            lemma_tree_view(out);
            assert(out@.children =~= relabelled(
                t@,
                label_views(leaves@),
                from as int,
            ).children);
        }
        (out, done)
    }
}

/// Copies of the labels of the leaves of a tree, in order.
fn copy_leaves<A: CopyLabel>(t: &Tree<A>) -> (r: Vec<A>)
    ensures
        label_views(r@) == t@.leaves(),
{
    let found = t.leaves();
    let mut out: Vec<A> = Vec::new();
    let mut k: usize = 0;
    while k < found.len()
        invariant
            k <= found.len(),
            out@.len() == k,
            found@.len() == t@.leaves().len(),
            forall|i: int| 0 <= i < found@.len() ==> (#[trigger] found@[i])@ == t@.leaves()[i],
            forall|i: int| 0 <= i < k ==> (#[trigger] out@[i])@ == t@.leaves()[i],
        decreases found.len() - k,
    {
        out.push(found[k].copy());
        k += 1;
    }
    assert(label_views(out@) =~= t@.leaves());
    out
}

/// The leaves `leaves` with the words of the first `n` entries of `word_map` put at their places.
pub open spec fn restored(
    leaves: Seq<NodeTypeView<Seq<char>, Seq<char>>>,
    word_map: Seq<(usize, Seq<char>)>,
    n: int,
) -> Seq<NodeTypeView<Seq<char>, Seq<char>>>
    decreases n,
{
    if 0 < n <= word_map.len() {
        restored(leaves, word_map, n - 1).update(
            word_map[n - 1].0 as int,
            NodeTypeView::Terminal(word_map[n - 1].1),
        )
    } else {
        leaves
    }
}

/// The places and words of a word map, as mathematical values.
pub open spec fn word_map_view(word_map: Seq<(usize, String)>) -> Seq<(usize, Seq<char>)> {
    Seq::new(word_map.len(), |i: int| (word_map[i].0, word_map[i].1@))
}

impl Tree<NodeType<String, String>> {
    /// Puts the words of `word_map` back into the tree: each entry names a
    /// leaf by its place among the leaves, and the word that belongs there.
    pub fn deunkify(&mut self, word_map: Vec<(usize, String)>)
        requires
            forall|i: int|
                0 <= i < word_map@.len() ==> (#[trigger] word_map@[i]).0 < old(self)@.leaves().len(),
        ensures
            final(self)@ == relabelled(
                old(self)@,
                restored(old(self)@.leaves(), word_map_view(word_map@), word_map@.len() as int),
                0,
            ),
    {
        let mut leaves = copy_leaves(self);
        let ghost start = self@.leaves();
        let ghost map = word_map_view(word_map@);
        let mut k: usize = 0;
        while k < word_map.len()
            invariant
                k <= word_map.len(),
                map == word_map_view(word_map@),
                leaves@.len() == start.len(),
                forall|i: int| 0 <= i < word_map@.len() ==> (#[trigger] word_map@[i]).0 < start.len(),
                label_views(leaves@) == restored(start, map, k as int),
            decreases word_map.len() - k,
        {
            let at = word_map[k].0;
            let ghost before = label_views(leaves@);
            leaves[at] = NodeType::Terminal(word_map[k].1.clone());
            proof {
                assert(map[k as int] == (word_map@[k as int].0, word_map@[k as int].1@));
                assert(label_views(leaves@) =~= before.update(
                    at as int,
                    NodeTypeView::Terminal(word_map@[k as int].1@),
                ));
            }
            k += 1;
        }
        let (tree, _) = relabel(self, &leaves, 0);
        *self = tree;
    }
}

/// How often the word `w` occurs among `words`.
pub open spec fn times_in(words: Seq<Seq<char>>, w: Seq<char>) -> nat
    decreases words.len(),
{
    if words.len() == 0 {
        0
    } else {
        times_in(words.drop_last(), w) + (if words.last() == w {
            1nat
        } else {
            0nat
        })
    }
}

/// Words with the number of times each was seen.
pub struct WordCounts {
    words: SymbolTable,
    counts: Vec<usize>,
    total: usize,
}

impl WordCounts {
    /// The words, in the order in which they were first seen.
    pub closed spec fn words(self) -> Seq<Seq<char>> {
        self.words@
    }

    /// How often each of the words was seen.
    pub closed spec fn counts(self) -> Seq<usize> {
        self.counts@
    }

    /// A number that no count is above: how many words were seen in all.
    pub closed spec fn seen(self) -> nat {
        self.total as nat
    }

    /// Every word has its count, and no word occurs twice.
    pub closed spec fn wf(self) -> bool {
        &&& self.words.wf()
        &&& self.counts@.len() == self.words@.len()
        &&& forall|i: int| 0 <= i < self.counts@.len() ==> #[trigger] self.counts@[i] <= self.total
    }

    /// How often the word `w` was seen.
    pub open spec fn count_of(self, w: Seq<char>) -> nat {
        if self.words().contains(w) {
            self.counts()[self.words().index_of(w)] as nat
        } else {
            0
        }
    }

    /// What well-formedness gives to callers.
    pub proof fn lemma_wf(self)
        requires
            self.wf(),
        ensures
            self.counts().len() == self.words().len(),
            no_symbol_twice(self.words()),
            self.words().len() <= u32::MAX + 1,
            forall|w: Seq<char>| #[trigger] self.count_of(w) <= self.seen(),
    {
        self.words.lemma_wf();
        assert forall|w: Seq<char>| #[trigger] self.count_of(w) <= self.seen() by {
            if self.words().contains(w) {
                let i = self.words().index_of(w);
                assert(self.counts@[i] <= self.total);
            }
        }
    }

    /// No word was seen.
    pub fn new() -> (r: Self)
        ensures
            r.wf(),
            r.words() == Seq::<Seq<char>>::empty(),
            r.seen() == 0,
    {
        WordCounts { words: SymbolTable::new(), counts: Vec::new(), total: 0 }
    }

    /// Whether `more` words can be counted within what the machine holds.
    pub fn can_count(&self, more: usize) -> (r: bool)
        ensures
            r == (self.words().len() + more <= u32::MAX && self.seen() + more <= usize::MAX),
    {
        more <= usize::MAX - self.total && self.words.len() <= 0xffff_ffff && more <= 0xffff_ffff
            - self.words.len()
    }

    /// The number of words.
    pub fn len(&self) -> (r: usize)
        ensures
            r == self.words().len(),
    {
        self.words.len()
    }

    /// How often the word was seen.
    pub fn get(&self, w: &String) -> (r: usize)
        requires
            self.wf(),
        ensures
            r == self.count_of(w@),
    {
        match self.words.find(w) {
            Some(i) => self.counts[i as usize],
            None => 0,
        }
    }

    /// Whether the word was seen.
    pub fn contains_key(&self, w: &String) -> (r: bool)
        requires
            self.wf(),
        ensures
            r == self.words().contains(w@),
    {
        self.words.find(w).is_some()
    }

    /// Sees the word once more.
    pub fn add(&mut self, w: &String)
        requires
            old(self).wf(),
            old(self).seen() < usize::MAX,
            old(self).words().len() <= u32::MAX,
        ensures
            final(self).wf(),
            final(self).seen() == old(self).seen() + 1,
            final(self).words() == interned(old(self).words(), w@).0,
            forall|x: Seq<char>| #[trigger]
                final(self).count_of(x) == old(self).count_of(x) + (if x == w@ {
                    1nat
                } else {
                    0nat
                }),
    {
        let ghost before = *self;
        proof {
            self.words.lemma_wf();
        }
        let i = self.words.intern(w.clone()) as usize;
        if i == self.counts.len() {
            self.counts.push(0);
        }
        let seen = self.counts[i];
        self.counts[i] = seen + 1;
        self.total = self.total + 1;
        proof {
            self.words.lemma_wf();
            assert forall|j: int| 0 <= j < self.counts@.len() implies #[trigger] self.counts@[j]
                <= self.total by {
                if j != i && j < before.counts@.len() {
                    assert(self.counts@[j] == before.counts@[j]);
                }
            }
            let ws = self.words@;
            let old_ws = before.words@;
            assert(ws[i as int] == w@);
            assert(ws.index_of(w@) == i) by {
                let j = ws.index_of(w@);
                assert(ws[j] == w@);
            }
            assert forall|x: Seq<char>| #[trigger]
                self.count_of(x) == before.count_of(x) + (if x == w@ {
                    1nat
                } else {
                    0nat
                }) by {
                if x != w@ {
                    if old_ws.contains(x) {
                        let j = old_ws.index_of(x);
                        assert(ws[j] == x);
                        assert(ws.index_of(x) == j) by {
                            let j2 = ws.index_of(x);
                            assert(ws[j2] == x);
                        }
                    } else if ws.contains(x) {
                        let j = ws.index_of(x);
                        assert(ws[j] == x);
                        if j < old_ws.len() {
                            assert(old_ws[j] == x);
                        }
                    }
                } else {
                    if old_ws.contains(x) {
                        let j = old_ws.index_of(x);
                        assert(old_ws[j] == x);
                        assert(ws[j] == x);
                    }
                }
            }
        }
    }

    /// The words that were seen more than `threshold` times, with their counts.
    pub fn above(&self, threshold: usize) -> (r: Self)
        requires
            self.wf(),
        ensures
            r.wf(),
            forall|w: Seq<char>| #[trigger]
                r.words().contains(w) <==> self.count_of(w) > threshold,
            forall|w: Seq<char>| r.words().contains(w) ==> #[trigger] r.count_of(w) == self.count_of(w),
    {
        let mut out = WordCounts::new();
        out.total = self.total;
        let names = self.words.names();
        proof {
            self.words.lemma_wf();
        }
        let ghost ws = self.words@;
        let mut k: usize = 0;
        while k < names.len()
            invariant
                k <= names.len(),
                label_views(names@) == ws,
                ws == self.words@,
                self.wf(),
                no_symbol_twice(ws),
                ws.len() <= u32::MAX + 1,
                out.wf(),
                out.total == self.total,
                out.words().len() <= k,
                forall|w: Seq<char>| #[trigger]
                    out.words().contains(w) <==> (exists|i: int|
                        0 <= i < k && ws[i] == w && self.counts@[i] > threshold),
                forall|w: Seq<char>|
                    out.words().contains(w) ==> #[trigger] out.count_of(w) == self.count_of(w),
            decreases names.len() - k,
        {
            let ghost before = out;
            let seen = self.counts[k];
            let ghost word = ws[k as int];
            assert(names@[k as int]@ == word);
            proof {
                assert(ws.index_of(word) == k) by {
                    let j = ws.index_of(word);
                    assert(ws[j] == word);
                }
                assert(self.count_of(word) == seen);
            }
            if seen > threshold {
                proof {
                    out.words.lemma_wf();
                    if out.words().contains(word) {
                        let i = choose|i: int|
                            0 <= i < k && ws[i] == word && self.counts@[i] > threshold;
                        assert(ws[i] == ws[k as int]);
                    }
                }
                let at = out.words.intern(names[k].clone()) as usize;
                out.counts.push(seen);
                proof {
                    out.words.lemma_wf();
                    assert(self.counts@[k as int] <= self.total);
                    assert forall|j: int| 0 <= j < out.counts@.len() implies #[trigger] out.counts@[j]
                        <= out.total by {
                        if j < before.counts@.len() {
                            assert(out.counts@[j] == before.counts@[j]);
                        }
                    }
                    let ows = out.words@;
                    assert(at == before.words@.len());
                    assert(ows =~= before.words@.push(word));
                    assert forall|w: Seq<char>| #[trigger] out.words().contains(w) <==> (exists|
                        i: int,
                    |
                        0 <= i < k + 1 && ws[i] == w && self.counts@[i] > threshold) by {
                        if w == word {
                            assert(ows[at as int] == w);
                            assert(ws[k as int] == w && self.counts@[k as int] > threshold);
                        } else {
                            if out.words().contains(w) {
                                let j = ows.index_of(w);
                                assert(ows[j] == w);
                                assert(before.words@[j] == w);
                                assert(before.words().contains(w));
                                let i = choose|i: int|
                                    0 <= i < k && ws[i] == w && self.counts@[i] > threshold;
                                assert(0 <= i < k + 1 && ws[i] == w && self.counts@[i] > threshold);
                            }
                            if exists|i: int|
                                0 <= i < k + 1 && ws[i] == w && self.counts@[i] > threshold {
                                let i = choose|i: int|
                                    0 <= i < k + 1 && ws[i] == w && self.counts@[i] > threshold;
                                assert(i < k);
                                assert(before.words().contains(w));
                                let j = before.words@.index_of(w);
                                assert(before.words@[j] == w);
                                assert(ows[j] == w);
                            }
                        }
                    }
                    assert forall|w: Seq<char>| out.words().contains(w) implies #[trigger] out.count_of(
                        w,
                    ) == self.count_of(w) by {
                        let j = ows.index_of(w);
                        assert(ows[j] == w);
                        if w == word {
                            assert(j == at);
                        } else {
                            assert(before.words@[j] == w);
                            assert(before.words().contains(w));
                            assert(before.words@.index_of(w) == j) by {
                                let j2 = before.words@.index_of(w);
                                assert(before.words@[j2] == w);
                                assert(ows[j2] == w);
                            }
                            assert(before.count_of(w) == self.count_of(w));
                        }
                    }
                }
            } else {
                proof {
                    assert forall|w: Seq<char>| #[trigger] out.words().contains(w) <==> (exists|
                        i: int,
                    |
                        0 <= i < k + 1 && ws[i] == w && self.counts@[i] > threshold) by {
                        if out.words().contains(w) {
                            let i = choose|i: int|
                                0 <= i < k && ws[i] == w && self.counts@[i] > threshold;
                            assert(0 <= i < k + 1 && ws[i] == w && self.counts@[i] > threshold);
                        }
                        if exists|i: int|
                            0 <= i < k + 1 && ws[i] == w && self.counts@[i] > threshold {
                            let i = choose|i: int|
                                0 <= i < k + 1 && ws[i] == w && self.counts@[i] > threshold;
                            assert(i < k);
                        }
                    }
                }
            }
            k += 1;
        }
        proof {
            assert forall|w: Seq<char>| #[trigger]
                out.words().contains(w) <==> self.count_of(w) > threshold by {
                if out.words().contains(w) {
                    let i = choose|i: int| 0 <= i < k && ws[i] == w && self.counts@[i] > threshold;
                    assert(ws.contains(w));
                    assert(ws.index_of(w) == i) by {
                        let j = ws.index_of(w);
                        assert(ws[j] == w);
                    }
                }
                if self.count_of(w) > threshold {
                    let i = ws.index_of(w);
                    assert(ws[i] == w);
                    assert(0 <= i < k && ws[i] == w && self.counts@[i] > threshold);
                }
            }
        }
        out
    }
}

/// The words of a table after the first `n` of `more` were seen: each
/// word that is new goes behind the others.
pub open spec fn with_words(words: Seq<Seq<char>>, more: Seq<Seq<char>>, n: int) -> Seq<Seq<char>>
    decreases n,
{
    if 0 < n <= more.len() {
        interned(with_words(words, more, n - 1), more[n - 1]).0
    } else {
        words
    }
}

/// Whether the words `more` can be counted on top of `counts` within what the machine holds.
pub open spec fn words_fit(counts: WordCounts, more: Seq<Seq<char>>) -> bool {
    &&& counts.words().len() + more.len() <= u32::MAX
    &&& counts.seen() + more.len() <= usize::MAX
}

/// Counts the words of a tree: every leaf of the tree is seen once more.
pub fn count_words(tree: &Tree<String>, word_count: &mut WordCounts)
    requires
        old(word_count).wf(),
        words_fit(*old(word_count), tree@.leaves()),
    ensures
        final(word_count).wf(),
        final(word_count).seen() == old(word_count).seen() + tree@.leaves().len(),
        final(word_count).words() == with_words(
            old(word_count).words(),
            tree@.leaves(),
            tree@.leaves().len() as int,
        ),
        forall|w: Seq<char>| #[trigger]
            final(word_count).count_of(w) == old(word_count).count_of(w) + times_in(
                tree@.leaves(),
                w,
            ),
{
    let leaves = tree.leaves();
    let ghost all = tree@.leaves();
    let ghost start = *word_count;
    let mut k: usize = 0;
    while k < leaves.len()
        invariant
            k <= leaves.len(),
            leaves@.len() == all.len(),
            forall|i: int| 0 <= i < leaves@.len() ==> (#[trigger] leaves@[i])@ == all[i],
            word_count.wf(),
            words_fit(start, all),
            word_count.words().len() <= start.words().len() + k,
            word_count.seen() == start.seen() + k,
            word_count.words() == with_words(start.words(), all, k as int),
            forall|w: Seq<char>| #[trigger]
                word_count.count_of(w) == start.count_of(w) + times_in(all.take(k as int), w),
        decreases leaves.len() - k,
    {
        let ghost before = *word_count;
        let ghost word = all[k as int];
        proof {
            assert(all.take(k + 1).drop_last() =~= all.take(k as int));
            assert(all.take(k + 1).last() == word);
        }
        word_count.add(leaves[k]);
        proof {
            assert forall|w: Seq<char>| #[trigger]
                word_count.count_of(w) == start.count_of(w) + times_in(all.take(k + 1), w) by {
                assert(word_count.count_of(w) == before.count_of(w) + (if w == word {
                    1nat
                } else {
                    0nat
                }));
                assert(before.count_of(w) == start.count_of(w) + times_in(all.take(k as int), w));
            }
        }
        k += 1;
    }
    proof {
        assert(all.take(all.len() as int) =~= all);
    }
}

/// The words with `UNK` in the place of every word that is not among `known`.
pub open spec fn unked(words: Seq<Seq<char>>, known: Set<Seq<char>>) -> Seq<Seq<char>> {
    Seq::new(
        words.len(),
        |i: int|
            if known.contains(words[i]) {
                words[i]
            } else {
                "UNK"@
            },
    )
}

/// The words with its signature in the place of every word that is not among `known`.
pub open spec fn smoothed(words: Seq<Seq<char>>, known: Set<Seq<char>>) -> Seq<Seq<char>> {
    Seq::new(
        words.len(),
        |i: int|
            if known.contains(words[i]) {
                words[i]
            } else {
                signature_text(signature_of(words[i], i))
            },
    )
}

/// The places and the words of those of `words[..n]` that are not among `known`.
pub open spec fn unknown_words(words: Seq<Seq<char>>, known: Set<Seq<char>>, n: int) -> Seq<
    (usize, Seq<char>),
>
    decreases n,
{
    if 0 < n <= words.len() {
        if known.contains(words[n - 1]) {
            unknown_words(words, known, n - 1)
        } else {
            unknown_words(words, known, n - 1).push(((n - 1) as usize, words[n - 1]))
        }
    } else {
        Seq::empty()
    }
}

/// The words as leaves of a parse.
pub open spec fn as_terminals(words: Seq<Seq<char>>) -> Seq<NodeTypeView<Seq<char>, Seq<char>>> {
    Seq::new(words.len(), |i: int| NodeTypeView::Terminal(words[i]))
}

/// Putting the unknown words back gives the words: the leaves that stand
/// for the first `n` words are those words again, whatever stood in the
/// place of the unknown ones, and the other leaves stay.
pub proof fn lemma_restored_words(
    words: Seq<Seq<char>>,
    replaced: Seq<Seq<char>>,
    known: Set<Seq<char>>,
    n: int,
)
    requires
        0 <= n <= words.len() <= usize::MAX,
        replaced.len() == words.len(),
        forall|i: int| 0 <= i < words.len() && known.contains(words[i]) ==> replaced[i] == words[i],
    ensures
        restored(
            as_terminals(replaced),
            unknown_words(words, known, n),
            unknown_words(words, known, n).len() as int,
        ) == Seq::new(
            words.len(),
            |i: int|
                if i < n {
                    NodeTypeView::<Seq<char>, Seq<char>>::Terminal(words[i])
                } else {
                    NodeTypeView::<Seq<char>, Seq<char>>::Terminal(replaced[i])
                },
        ),
    decreases n,
{
    let map = unknown_words(words, known, n);
    let goal = Seq::new(
        words.len(),
        |i: int|
            if i < n {
                NodeTypeView::<Seq<char>, Seq<char>>::Terminal(words[i])
            } else {
                NodeTypeView::<Seq<char>, Seq<char>>::Terminal(replaced[i])
            },
    );
    if n == 0 {
        assert(restored(as_terminals(replaced), map, 0) =~= goal);
    } else {
        let before = unknown_words(words, known, n - 1);
        lemma_restored_words(words, replaced, known, n - 1);
        if known.contains(words[n - 1]) {
            assert(map == before);
            assert(restored(as_terminals(replaced), map, map.len() as int) =~= goal);
        } else {
            assert(map == before.push(((n - 1) as usize, words[n - 1])));
            lemma_restored_prefix(as_terminals(replaced), map, before.len() as int);
            assert(map.take(before.len() as int) =~= before);
            let earlier = restored(as_terminals(replaced), before, before.len() as int);
            assert(restored(as_terminals(replaced), map, before.len() as int) == earlier);
            assert(map[map.len() - 1] == ((n - 1) as usize, words[n - 1]));
            assert(restored(as_terminals(replaced), map, map.len() as int) == earlier.update(
                n - 1,
                NodeTypeView::Terminal(words[n - 1]),
            ));
            assert(restored(as_terminals(replaced), map, map.len() as int) =~= goal);
        }
    }
}

/// Putting back the first `k` entries of a word map looks at those entries only.
proof fn lemma_restored_prefix(
    leaves: Seq<NodeTypeView<Seq<char>, Seq<char>>>,
    map: Seq<(usize, Seq<char>)>,
    k: int,
)
    requires
        0 <= k <= map.len(),
    ensures
        restored(leaves, map, k) == restored(leaves, map.take(k), k),
    decreases k,
{
    if k > 0 {
        lemma_restored_prefix(leaves, map, k - 1);
        lemma_restored_prefix(leaves, map.take(k), k - 1);
        assert(map.take(k).take(k - 1) =~= map.take(k - 1));
        assert(map.take(k)[k - 1] == map[k - 1]);
    }
}

/// Where no word is unknown, every word is known.
pub proof fn lemma_no_unknown_words(words: Seq<Seq<char>>, known: Set<Seq<char>>, n: int)
    requires
        0 <= n <= words.len(),
        unknown_words(words, known, n).len() == 0,
    ensures
        forall|i: int| 0 <= i < n ==> known.contains(#[trigger] words[i]),
    decreases n,
{
    if n > 0 {
        if known.contains(words[n - 1]) {
            lemma_no_unknown_words(words, known, n - 1);
        }
    }
}

/// The places of the unknown words are places of the words.
pub proof fn lemma_places_in_range(words: Seq<Seq<char>>, known: Set<Seq<char>>, n: int)
    requires
        0 <= n <= words.len() <= usize::MAX,
    ensures
        forall|i: int|
            0 <= i < unknown_words(words, known, n).len() ==> (#[trigger] unknown_words(
                words,
                known,
                n,
            )[i]).0 < n,
    decreases n,
{
    if n > 0 {
        lemma_places_in_range(words, known, n - 1);
        let before = unknown_words(words, known, n - 1);
        let now = unknown_words(words, known, n);
        assert forall|i: int| 0 <= i < now.len() implies (#[trigger] now[i]).0 < n by {
            if i < before.len() {
                assert(now[i] == before[i]);
            }
        }
    }
}

impl Tree<String> {
    /// Puts `UNK` in the place of every word of the tree that is not among `words`.
    pub fn unkify(&mut self, words: &WordCounts)
        requires
            words.wf(),
        ensures
            final(self)@ == relabelled(
                old(self)@,
                unked(old(self)@.leaves(), words.words().to_set()),
                0,
            ),
    {
        let mut leaves = copy_leaves(self);
        let ghost start = self@.leaves();
        let ghost known = words.words().to_set();
        let mut k: usize = 0;
        while k < leaves.len()
            invariant
                k <= leaves.len(),
                leaves@.len() == start.len(),
                words.wf(),
                known == words.words().to_set(),
                forall|i: int|
                    0 <= i < k ==> (#[trigger] leaves@[i])@ == unked(start, known)[i],
                forall|i: int| k <= i < leaves@.len() ==> (#[trigger] leaves@[i])@ == start[i],
            decreases leaves.len() - k,
        {
            if !words.contains_key(&leaves[k]) {
                leaves[k] = String::from_str("UNK");
            }
            k += 1;
        }
        assert(label_views(leaves@) =~= unked(start, known));
        let (tree, _) = relabel(self, &leaves, 0);
        *self = tree;
    }

    /// Puts its signature in the place of every word of the tree that is not among `words`.
    pub fn smooth(&mut self, words: &WordCounts)
        requires
            words.wf(),
        ensures
            final(self)@ == relabelled(
                old(self)@,
                smoothed(old(self)@.leaves(), words.words().to_set()),
                0,
            ),
    {
        let mut leaves = copy_leaves(self);
        let ghost start = self@.leaves();
        let ghost known = words.words().to_set();
        let mut k: usize = 0;
        while k < leaves.len()
            invariant
                k <= leaves.len(),
                leaves@.len() == start.len(),
                words.wf(),
                known == words.words().to_set(),
                forall|i: int|
                    0 <= i < k ==> (#[trigger] leaves@[i])@ == smoothed(start, known)[i],
                forall|i: int| k <= i < leaves@.len() ==> (#[trigger] leaves@[i])@ == start[i],
            decreases leaves.len() - k,
        {
            if !words.contains_key(&leaves[k]) {
                let signature = UnkSignature::new(leaves[k].as_str(), k);
                leaves[k] = signature.to_text();
            }
            k += 1;
        }
        assert(label_views(leaves@) =~= smoothed(start, known));
        let (tree, _) = relabel(self, &leaves, 0);
        *self = tree;
    }
}

impl Sentence<String> {
    /// Puts `UNK` in the place of every word that has no lexical rule.
    /// Gives the places and the words that were replaced, or nothing where
    /// every word has a rule.
    pub fn unkify(&mut self, words: &LexicalRules) -> (r: Option<Vec<(usize, String)>>)
        ensures
            final(self)@ == unked(old(self)@, lexical_rules(*words).dom()),
            match r {
                Some(found) => found@.len() > 0 && word_map_view(found@) == unknown_words(
                    old(self)@,
                    lexical_rules(*words).dom(),
                    old(self)@.len() as int,
                ),
                None => unknown_words(
                    old(self)@,
                    lexical_rules(*words).dom(),
                    old(self)@.len() as int,
                ).len() == 0,
            },
    {
        let ghost start = self@;
        let ghost known = lexical_rules(*words).dom();
        let mut result: Vec<(usize, String)> = Vec::new();
        let mut i: usize = 0;
        assert(word_map_view(result@) =~= unknown_words(start, known, 0));
        while i < self.0.len()
            invariant
                i <= self.0@.len(),
                self.0@.len() == start.len(),
                known == lexical_rules(*words).dom(),
                word_map_view(result@) == unknown_words(start, known, i as int),
                forall|j: int| 0 <= j < i ==> (#[trigger] self.0@[j])@ == unked(start, known)[j],
                forall|j: int| i <= j < start.len() ==> (#[trigger] self.0@[j])@ == start[j],
            decreases self.0@.len() - i,
        {
            if lexical_get(words, &self.0[i]).is_none() {
                let ghost before = word_map_view(result@);
                result.push((i, self.0[i].clone()));
                assert(word_map_view(result@) =~= before.push((i, start[i as int])));
                self.0[i] = String::from_str("UNK");
            }
            i += 1;
        }
        assert(self@ =~= unked(start, known));
        if result.len() == 0 {
            None
        } else {
            Some(result)
        }
    }

    /// Puts its signature in the place of every word that has no lexical
    /// rule. Gives the places and the words that were replaced, or nothing
    /// where every word has a rule.
    pub fn smooth(&mut self, words: &LexicalRules) -> (r: Option<Vec<(usize, String)>>)
        ensures
            final(self)@ == smoothed(old(self)@, lexical_rules(*words).dom()),
            match r {
                Some(found) => found@.len() > 0 && word_map_view(found@) == unknown_words(
                    old(self)@,
                    lexical_rules(*words).dom(),
                    old(self)@.len() as int,
                ),
                None => unknown_words(
                    old(self)@,
                    lexical_rules(*words).dom(),
                    old(self)@.len() as int,
                ).len() == 0,
            },
    {
        let ghost start = self@;
        let ghost known = lexical_rules(*words).dom();
        let mut result: Vec<(usize, String)> = Vec::new();
        let mut i: usize = 0;
        assert(word_map_view(result@) =~= unknown_words(start, known, 0));
        while i < self.0.len()
            invariant
                i <= self.0@.len(),
                self.0@.len() == start.len(),
                known == lexical_rules(*words).dom(),
                word_map_view(result@) == unknown_words(start, known, i as int),
                forall|j: int| 0 <= j < i ==> (#[trigger] self.0@[j])@ == smoothed(start, known)[j],
                forall|j: int| i <= j < start.len() ==> (#[trigger] self.0@[j])@ == start[j],
            decreases self.0@.len() - i,
        {
            if lexical_get(words, &self.0[i]).is_none() {
                let ghost before = word_map_view(result@);
                result.push((i, self.0[i].clone()));
                assert(word_map_view(result@) =~= before.push((i, start[i as int])));
                let signature = UnkSignature::new(self.0[i].as_str(), i);
                self.0[i] = signature.to_text();
            }
            i += 1;
        }
        assert(self@ =~= smoothed(start, known));
        if result.len() == 0 {
            None
        } else {
            Some(result)
        }
    }
}

} // verus!
