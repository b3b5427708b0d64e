//! What the chart of the decoder means: when an entry has a reason in the
//! grammar and the sentence, what tree the traces of the chart spell out,
//! and that this tree derives the sentence.

use vstd::prelude::*;
use crate::grammar::cell::{no_entry, BacktraceInfo, ChartEntry};
use crate::grammar::chart::{
    cell_number, is_span, lemma_cell_number_bounds, lemma_cell_number_injective, triangle,
};
use crate::grammar::closure::has_chain;
use crate::grammar::parse::GrammarView;
use crate::sentence::word_leaf;
use crate::tree::{NodeType, NodeTypeView, Tree, TreeView};

verus! {

/// A tree of a parse, as a mathematical value.
pub type ParseView = TreeView<NodeTypeView<Seq<char>, Seq<char>>>;

/// Whether the grammar has a rule by which non-terminal `a` yields the word `w`.
pub open spec fn has_lexical(g: GrammarView, a: int, w: Seq<char>) -> bool {
    &&& g.lexicon.contains_key(w)
    &&& exists|j: int| 0 <= j < g.lexicon[w].len() && (#[trigger] g.lexicon[w][j]).0 == a
}

/// Whether the grammar has a rule by which non-terminal `a` yields `b` and then `c`.
pub open spec fn has_binary(g: GrammarView, a: int, b: int, c: int) -> bool {
    &&& 0 <= a <= u32::MAX
    &&& g.binaries.contains_key(a as u32)
    &&& exists|j: int|
        0 <= j < g.binaries[a as u32].len() && (#[trigger] g.binaries[a as u32][j]).0 == b
            && g.binaries[a as u32][j].1 == c
}

/// The place in the chart of the entry of non-terminal `a` for a span, in
/// a chart for `n` words and `num` non-terminals.
pub open spec fn flat(n: int, num: int, start: int, span: int, a: int) -> int {
    cell_number(n, start, span) * num + a
}

/// Whether a trace has a reason in the grammar and the sentence: a word
/// trace stands in the cell of its word, which a lexical rule yields; a
/// chain trace names a non-terminal that a rule yields alone; a binary trace
/// names the entries of two adjoining spans that make up this span, for
/// non-terminals that a rule yields together.
pub open spec fn is_sound_trace(
    g: GrammarView,
    words: Seq<Seq<char>>,
    start: int,
    span: int,
    a: int,
    back: BacktraceInfo,
) -> bool {
    let n = words.len() as int;
    let num = g.symbols.len() as int;
    match back {
        BacktraceInfo::Term(t) => span == 1 && t == start && has_lexical(g, a, words[start]),
        BacktraceInfo::Chain(b) => b < num && has_chain(g, a, b as int),
        BacktraceInfo::Binary(l, r) => exists|m: int, b: int, c: int|
            {
                &&& start < m < start + span
                &&& 0 <= b < num
                &&& 0 <= c < num
                &&& l == #[trigger] flat(n, num, start, m - start, b)
                &&& r == #[trigger] flat(n, num, m, start + span - m, c)
                &&& has_binary(g, a, b, c)
            },
    }
}

/// Whether the entry `e` may stand in the chart for non-terminal `a` and a
/// span: it is no entry, or its weight is above 0 and its trace is sound.
pub open spec fn is_sound_entry(
    g: GrammarView,
    words: Seq<Seq<char>>,
    start: int,
    span: int,
    a: int,
    e: ChartEntry,
) -> bool {
    e == no_entry() || (e.weight > 0 && e.back is Some && is_sound_trace(
        g,
        words,
        start,
        span,
        a,
        e.back->0,
    ))
}

/// Whether every entry of the chart `c` is sound.
pub open spec fn is_sound_chart(g: GrammarView, words: Seq<Seq<char>>, c: Seq<ChartEntry>) -> bool {
    let n = words.len() as int;
    let num = g.symbols.len() as int;
    &&& c.len() == triangle(n) * num
    &&& forall|start: int, span: int, a: int|
        is_span(n, start, span) && 0 <= a < num ==> is_sound_entry(
            g,
            words,
            start,
            span,
            a,
            #[trigger] c[flat(n, num, start, span, a)],
        )
}

/// Whether `t` derives the words of a span from non-terminal `a`: its root
/// is `a`, and below it stands the word that a lexical rule yields, or the
/// derivation from a non-terminal that a rule yields alone, or the
/// derivations of the two parts of the span from two non-terminals that a
/// rule yields together.
pub open spec fn derives(
    g: GrammarView,
    words: Seq<Seq<char>>,
    t: ParseView,
    start: int,
    span: int,
    a: int,
) -> bool
    decreases t,
{
    &&& 0 <= a < g.symbols.len()
    &&& is_span(words.len() as int, start, span)
    &&& t.root == NodeTypeView::<Seq<char>, Seq<char>>::NonTerminal(g.symbols[a])
    &&& {
        ||| {
            &&& span == 1
            &&& t.children == seq![word_leaf(words[start])]
            &&& has_lexical(g, a, words[start])
        }
        ||| {
            &&& t.children.len() == 1
            &&& exists|b: int| #[trigger]
                has_chain(g, a, b) && 0 <= b < g.symbols.len() && derives(
                    g,
                    words,
                    t.children[0],
                    start,
                    span,
                    b,
                )
        }
        ||| {
            &&& t.children.len() == 2
            &&& exists|m: int, b: int, c: int|
                {
                    &&& start < m < start + span
                    &&& #[trigger] has_binary(g, a, b, c)
                    &&& derives(g, words, t.children[0], start, m - start, b)
                    &&& derives(g, words, t.children[1], m, #[trigger] (start + span - m), c)
                }
        }
    }
}

/// Whether the traces of the entries `c` point into the chart, the
/// sentence of `n` words and the `num` non-terminals.
pub open spec fn traces_in_range(c: Seq<ChartEntry>, n: int, num: int) -> bool {
    &&& num > 0
    &&& (c.len() as int) % num == 0
    &&& forall|idx: int|
        0 <= idx < c.len() ==> match (#[trigger] c[idx]).back {
            None => true,
            Some(BacktraceInfo::Term(t)) => t < n,
            Some(BacktraceInfo::Chain(b)) => b < num,
            Some(BacktraceInfo::Binary(l, r)) => l < c.len() && r < c.len(),
        }
}

/// A node labelled with the non-terminal `symbol` over `children`.
pub open spec fn nt_node(symbol: Seq<char>, children: Seq<ParseView>) -> ParseView {
    TreeView { root: NodeTypeView::NonTerminal(symbol), children }
}

/// The tree that the traces from the entry at `idx` on spell out, if they
/// end in words within `fuel` steps: a word trace gives the non-terminal
/// over the word, a chain trace the non-terminal over the tree of the named
/// non-terminal in the same cell, a binary trace the non-terminal over the
/// trees of the two named entries. An entry without a trace gives nothing,
/// and so does every entry above it.
pub open spec fn best_tree(
    c: Seq<ChartEntry>,
    idx: int,
    words: Seq<Seq<char>>,
    symbols: Seq<Seq<char>>,
    fuel: nat,
) -> Option<ParseView>
    decreases fuel,
{
    let num = symbols.len() as int;
    let nt = idx % num;
    if fuel == 0 {
        None
    } else {
        match c[idx].back {
            None => None,
            Some(BacktraceInfo::Term(t)) => Some(
                nt_node(symbols[nt], seq![word_leaf(words[t as int])]),
            ),
            Some(BacktraceInfo::Chain(b)) => match best_tree(
                c,
                idx - nt + b,
                words,
                symbols,
                (fuel - 1) as nat,
            ) {
                Some(t) => Some(nt_node(symbols[nt], seq![t])),
                None => None,
            },
            Some(BacktraceInfo::Binary(l, r)) => match (
                best_tree(c, l as int, words, symbols, (fuel - 1) as nat),
                best_tree(c, r as int, words, symbols, (fuel - 1) as nat),
            ) {
                (Some(t1), Some(t2)) => Some(nt_node(symbols[nt], seq![t1, t2])),
                _ => None,
            },
        }
    }
}

/// The mathematical value of what the decoder gives.
pub open spec fn parse_view(r: Option<Tree<NodeType<String, String>>>) -> Option<ParseView> {
    match r {
        Some(t) => Some(t@),
        None => None,
    }
}

/// The tree that a sound chart spells out for a span and a non-terminal
/// derives the words of the span from the non-terminal.
pub proof fn lemma_best_tree_derives(
    g: GrammarView,
    words: Seq<Seq<char>>,
    c: Seq<ChartEntry>,
    start: int,
    span: int,
    a: int,
    fuel: nat,
    t: ParseView,
)
    requires
        is_sound_chart(g, words, c),
        is_span(words.len() as int, start, span),
        0 <= a < g.symbols.len(),
        best_tree(
            c,
            flat(words.len() as int, g.symbols.len() as int, start, span, a),
            words,
            g.symbols,
            fuel,
        ) == Some(t),
    ensures
        derives(g, words, t, start, span, a),
    decreases fuel,
{
    let n = words.len() as int;
    let num = g.symbols.len() as int;
    let idx = flat(n, num, start, span, a);
    lemma_flat_bounds(n, num, start, span, a);
    let e = c[idx];
    assert(is_sound_entry(g, words, start, span, a, e));
    assert(idx % num == a);
    match e.back {
        None => {},
        Some(BacktraceInfo::Term(w)) => {
            assert(t.children =~= seq![word_leaf(words[start])]);
        },
        Some(BacktraceInfo::Chain(b)) => {
            let below = best_tree(c, idx - a + b, words, g.symbols, (fuel - 1) as nat);
            assert(below is Some);
            assert(idx - a + b == flat(n, num, start, span, b as int));
            lemma_best_tree_derives(g, words, c, start, span, b as int, (fuel - 1) as nat, below->0);
            assert(t.children[0] == below->0);
            assert(has_chain(g, a, b as int));
        },
        Some(BacktraceInfo::Binary(l, r)) => {
            let (m, b, cc) = choose|m: int, b: int, cc: int|
                {
                    &&& start < m < start + span
                    &&& 0 <= b < num
                    &&& 0 <= cc < num
                    &&& l == #[trigger] flat(n, num, start, m - start, b)
                    &&& r == #[trigger] flat(n, num, m, start + span - m, cc)
                    &&& has_binary(g, a, b, cc)
                };
            let t1 = best_tree(c, l as int, words, g.symbols, (fuel - 1) as nat);
            let t2 = best_tree(c, r as int, words, g.symbols, (fuel - 1) as nat);
            assert(t1 is Some && t2 is Some);
            lemma_best_tree_derives(g, words, c, start, m - start, b, (fuel - 1) as nat, t1->0);
            lemma_best_tree_derives(
                g,
                words,
                c,
                m,
                start + span - m,
                cc,
                (fuel - 1) as nat,
                t2->0,
            );
            assert(t.children[0] == t1->0);
            assert(t.children[1] == t2->0);
            assert(has_binary(g, a, b, cc));
        },
    }
}

/// The words of a span as leaves of a parse.
pub open spec fn span_leaves(words: Seq<Seq<char>>, start: int, span: int) -> Seq<
    NodeTypeView<Seq<char>, Seq<char>>,
> {
    Seq::new(span as nat, |i: int| NodeTypeView::Terminal(words[start + i]))
}

/// The leaves of a derivation are the words of its span, in order.
pub proof fn lemma_derivation_yield(
    g: GrammarView,
    words: Seq<Seq<char>>,
    t: ParseView,
    start: int,
    span: int,
    a: int,
)
    requires
        derives(g, words, t, start, span, a),
    ensures
        t.leaves() == span_leaves(words, start, span),
    decreases t,
{
    if span == 1 && t.children == seq![word_leaf(words[start])] && has_lexical(
        g,
        a,
        words[start],
    ) {
        assert(t.leaves_upto(1) =~= t.leaves_upto(0) + t.children[0].leaves());
        assert(t.children[0].leaves() =~= seq![NodeTypeView::Terminal(words[start])]);
        assert(t.leaves() =~= span_leaves(words, start, span));
    } else if t.children.len() == 1 {
        let b = choose|b: int| #[trigger]
            has_chain(g, a, b) && 0 <= b < g.symbols.len() && derives(
                g,
                words,
                t.children[0],
                start,
                span,
                b,
            );
        lemma_derivation_yield(g, words, t.children[0], start, span, b);
        assert(t.leaves_upto(1) =~= t.leaves_upto(0) + t.children[0].leaves());
        assert(t.leaves() =~= span_leaves(words, start, span));
    } else {
        let (m, b, c) = choose|m: int, b: int, c: int|
            {
                &&& start < m < start + span
                &&& #[trigger] has_binary(g, a, b, c)
                &&& derives(g, words, t.children[0], start, m - start, b)
                &&& derives(g, words, t.children[1], m, #[trigger] (start + span - m), c)
            };
        lemma_derivation_yield(g, words, t.children[0], start, m - start, b);
        lemma_derivation_yield(g, words, t.children[1], m, start + span - m, c);
        assert(t.leaves_upto(1) =~= t.leaves_upto(0) + t.children[0].leaves());
        assert(t.leaves_upto(2) =~= t.leaves_upto(1) + t.children[1].leaves());
        assert(t.leaves() =~= span_leaves(words, start, span));
    }
}

/// A derivation ends in words that lexical rules yield: a grammar without
/// lexical rules derives nothing.
pub proof fn lemma_derivation_needs_words(
    g: GrammarView,
    words: Seq<Seq<char>>,
    t: ParseView,
    start: int,
    span: int,
    a: int,
)
    requires
        derives(g, words, t, start, span, a),
    ensures
        exists|w: Seq<char>| g.lexicon.dom().contains(w),
    decreases t,
{
    if span == 1 && t.children == seq![word_leaf(words[start])] && has_lexical(
        g,
        a,
        words[start],
    ) {
        assert(g.lexicon.dom().contains(words[start]));
    } else if t.children.len() == 1 {
        let b = choose|b: int| #[trigger]
            has_chain(g, a, b) && 0 <= b < g.symbols.len() && derives(
                g,
                words,
                t.children[0],
                start,
                span,
                b,
            );
        lemma_derivation_needs_words(g, words, t.children[0], start, span, b);
    } else {
        let (m, b, c) = choose|m: int, b: int, c: int|
            {
                &&& start < m < start + span
                &&& #[trigger] has_binary(g, a, b, c)
                &&& derives(g, words, t.children[0], start, m - start, b)
                &&& derives(g, words, t.children[1], m, #[trigger] (start + span - m), c)
            };
        lemma_derivation_needs_words(g, words, t.children[0], start, m - start, b);
    }
}

/// The place of an entry lies in the chart.
pub proof fn lemma_flat_bounds(n: int, num: int, start: int, span: int, a: int)
    requires
        is_span(n, start, span),
        0 <= a < num,
    ensures
        0 <= cell_number(n, start, span) * num,
        flat(n, num, start, span, a) == cell_number(n, start, span) * num + a,
        0 <= flat(n, num, start, span, a) < triangle(n) * num,
        cell_number(n, start, span) * num + num <= triangle(n) * num,
        flat(n, num, start, span, a) % num == a,
        flat(n, num, start, span, a) - a == cell_number(n, start, span) * num,
{
    lemma_cell_number_bounds(n, start, span);
    let k = cell_number(n, start, span);
    let t = triangle(n);
    assert(0 <= k * num && (k + 1) * num <= t * num && (k + 1) * num == k * num + num)
        by (nonlinear_arith)
        requires
            0 <= k < t,
            0 < num,
    ;
    assert((k * num + a) % num == a) by (nonlinear_arith)
        requires
            0 <= a < num,
            0 <= k,
    ;
}

/// Two entries at the same place are the entry of one span and one non-terminal.
pub proof fn lemma_flat_injective(
    n: int,
    num: int,
    s1: int,
    k1: int,
    a1: int,
    s2: int,
    k2: int,
    a2: int,
)
    requires
        is_span(n, s1, k1),
        is_span(n, s2, k2),
        0 <= a1 < num,
        0 <= a2 < num,
        flat(n, num, s1, k1, a1) == flat(n, num, s2, k2, a2),
    ensures
        s1 == s2,
        k1 == k2,
        a1 == a2,
{
    let c1 = cell_number(n, s1, k1);
    let c2 = cell_number(n, s2, k2);
    lemma_cell_number_bounds(n, s1, k1);
    lemma_cell_number_bounds(n, s2, k2);
    assert(c1 == c2 && a1 == a2) by (nonlinear_arith)
        requires
            c1 * num + a1 == c2 * num + a2,
            0 <= a1 < num,
            0 <= a2 < num,
            0 <= c1,
            0 <= c2,
    ;
    lemma_cell_number_injective(n, s1, k1, s2, k2);
}

/// Whether a trace points into a chart of `len` entries, a sentence of `n`
/// words and `num` non-terminals.
pub open spec fn is_trace_in_range(back: Option<BacktraceInfo>, len: int, n: int, num: int) -> bool {
    match back {
        None => true,
        Some(BacktraceInfo::Term(t)) => t < n,
        Some(BacktraceInfo::Chain(b)) => b < num,
        Some(BacktraceInfo::Binary(l, r)) => l < len && r < len,
    }
}

/// An entry that the decoder starts a cell with: no entry, or one with a
/// sound trace that is no chain trace.
pub open spec fn is_seed(
    g: GrammarView,
    words: Seq<Seq<char>>,
    start: int,
    span: int,
    a: int,
    e: ChartEntry,
) -> bool {
    e == no_entry() || (e.back is Some && !(e.back->0 is Chain) && is_sound_trace(
        g,
        words,
        start,
        span,
        a,
        e.back->0,
    ))
}

/// The entries of the spans that come before the span `(start_now, span_now)` are sound.
pub open spec fn is_sound_before(
    g: GrammarView,
    words: Seq<Seq<char>>,
    c: Seq<ChartEntry>,
    span_now: int,
    start_now: int,
) -> bool {
    let n = words.len() as int;
    let num = g.symbols.len() as int;
    forall|start: int, span: int, a: int|
        is_span(n, start, span) && 0 <= a < num && (span < span_now || (span == span_now && start
            < start_now)) ==> is_sound_entry(
            g,
            words,
            start,
            span,
            a,
            #[trigger] c[flat(n, num, start, span, a)],
        )
}

/// A sound entry points into the chart.
pub proof fn lemma_sound_in_range(
    g: GrammarView,
    words: Seq<Seq<char>>,
    start: int,
    span: int,
    a: int,
    e: ChartEntry,
)
    requires
        is_span(words.len() as int, start, span),
        0 <= a < g.symbols.len(),
        is_seed(g, words, start, span, a, e) || is_sound_entry(g, words, start, span, a, e),
    ensures
        is_trace_in_range(
            e.back,
            triangle(words.len() as int) * g.symbols.len(),
            words.len() as int,
            g.symbols.len() as int,
        ),
{
    let n = words.len() as int;
    let num = g.symbols.len() as int;
    match e.back {
        Some(BacktraceInfo::Binary(l, r)) => {
            let (m, b, c) = choose|m: int, b: int, c: int|
                {
                    &&& start < m < start + span
                    &&& 0 <= b < num
                    &&& 0 <= c < num
                    &&& l == #[trigger] flat(n, num, start, m - start, b)
                    &&& r == #[trigger] flat(n, num, m, start + span - m, c)
                    &&& has_binary(g, a, b, c)
                };
            lemma_flat_bounds(n, num, start, m - start, b);
            lemma_flat_bounds(n, num, m, start + span - m, c);
        },
        _ => {},
    }
}

} // verus!
