//! The weight of a derivation, and that the tree of the decoder is the
//! heaviest derivation of the sentence.

use vstd::prelude::*;
use vstd::multiset::Multiset;
use crate::grammar::cell::{BacktraceInfo, ChartEntry, CykMode};
use crate::grammar::chart::{cell_number, is_span};
use crate::grammar::closure::{is_offered, is_rule_product};
use crate::grammar::complete::{
    has_lexical_weight, is_binary_bound, is_binary_product, is_candidate, is_complete_cell,
    is_complete_chart, is_weighed, is_weighed_chart, lexical_rules_of,
};
use crate::grammar::derivation::{
    best_tree, flat, has_binary, is_sound_chart, is_sound_entry, lemma_flat_bounds, ParseView,
};
use crate::grammar::history::{
    is_cell_history, is_decoded_cell, is_decoded_chart, is_tame, lemma_entry_upto,
    lemma_made_chain_entry, lemma_tame_history,
};
use crate::grammar::parse::GrammarView;
use crate::grammar::queue::QueueItem;
use crate::sentence::word_leaf;
use crate::tree::NodeTypeView;

verus! {

/// Whether `m` splits the span `(start, span)` in two parts.
pub open spec fn splits(start: int, span: int, m: int) -> bool {
    start < m < start + span
}

/// Whether `w` is the weight of the derivation `t` of the words of a span
/// from non-terminal `a`: the weight of the lexical rule for a word, or the
/// product of the weight of a rule and the weights of the derivations below
/// it, as `times` gives it.
pub open spec fn weighs<F: Fn(u64, u64) -> u64>(
    g: GrammarView,
    times: &F,
    words: Seq<Seq<char>>,
    t: ParseView,
    start: int,
    span: int,
    a: int,
    w: u64,
) -> bool
    decreases t,
{
    &&& 0 <= a < g.symbols.len()
    &&& is_span(words.len() as int, start, span)
    &&& t.root == NodeTypeView::<Seq<char>, Seq<char>>::NonTerminal(g.symbols[a])
    &&& {
        ||| {
            &&& span == 1
            &&& t.children == seq![word_leaf(words[start])]
            &&& has_lexical_weight(g, a, words[start], w)
        }
        ||| {
            &&& t.children.len() == 1
            &&& exists|b: int, q: u64|
                0 <= b < g.symbols.len() && weighs(g, times, words, t.children[0], start, span, b, q)
                    && #[trigger] is_rule_product(g, times, a, b, q, w)
        }
        ||| {
            &&& t.children.len() == 2
            &&& exists|m: int, b: int, d: int, left: u64, right: u64|
                {
                    &&& #[trigger] splits(start, span, m)
                    &&& weighs(g, times, words, t.children[0], start, m - start, b, left)
                    &&& weighs(g, times, words, t.children[1], m, start + span - m, d, right)
                    &&& #[trigger] is_binary_product(g, times, a, b, d, left, right, w)
                }
        }
    }
}

/// Whether `t` is a heaviest derivation of the sentence from the initial
/// non-terminal: its weight is `w`, and no derivation has a greater weight.
pub open spec fn is_heaviest<F: Fn(u64, u64) -> u64>(
    g: GrammarView,
    times: &F,
    words: Seq<Seq<char>>,
    t: ParseView,
    w: u64,
) -> bool {
    &&& weighs(g, times, words, t, 0, words.len() as int, g.initial, w)
    &&& forall|other: ParseView, v: u64| #[trigger]
        weighs(g, times, words, other, 0, words.len() as int, g.initial, v) ==> v <= w
}

/// Whether products of weights up to `top` grow with their arguments:
/// greater weights do not give a smaller product.
pub open spec fn is_monotone<F: Fn(u64, u64) -> u64>(times: &F, top: u64) -> bool {
    forall|w1: u64, q1: u64, r1: u64, w2: u64, q2: u64, r2: u64|
        w1 <= w2 <= top && q1 <= q2 <= top && #[trigger] times.ensures((w1, q1), r1)
            && #[trigger] times.ensures((w2, q2), r2) ==> r1 <= r2
}

/// Whether no word has two lexical rules with the same left side.
pub open spec fn has_unique_lexical(g: GrammarView) -> bool {
    forall|w: Seq<char>, j: int, k: int|
        g.lexicon.contains_key(w) && 0 <= j < k < g.lexicon[w].len() ==> (
        #[trigger] g.lexicon[w][j]).0 != (#[trigger] g.lexicon[w][k]).0
}

/// The tree that the chart spells out for an entry has the weight of the
/// entry, where the decoder stays among the weights up to `top`.
pub proof fn lemma_best_tree_weighs<F: Fn(u64, u64) -> u64>(
    g: GrammarView,
    times: &F,
    words: Seq<Seq<char>>,
    c: Seq<ChartEntry>,
    mode: CykMode,
    top: u64,
    start: int,
    span: int,
    a: int,
    fuel: nat,
    t: ParseView,
)
    requires
        is_sound_chart(g, words, c),
        is_weighed_chart(g, times, words, c),
        is_decoded_chart(g, times, words, c, mode),
        is_tame(g, times, top),
        is_span(words.len() as int, start, span),
        0 <= a < g.symbols.len(),
        best_tree(
            c,
            flat(words.len() as int, g.symbols.len() as int, start, span, a),
            words,
            g.symbols,
            fuel,
        ) == Some(t),
    ensures
        weighs(
            g,
            times,
            words,
            t,
            start,
            span,
            a,
            c[flat(words.len() as int, g.symbols.len() as int, start, span, a)].weight,
        ),
    decreases fuel,
{
    let n = words.len() as int;
    let num = g.symbols.len() as int;
    let idx = flat(n, num, start, span, a);
    let at = cell_number(n, start, span) * num;
    let cell = c.subrange(at, at + num);
    lemma_flat_bounds(n, num, start, span, a);
    let e = c[idx];
    assert(cell[a] == e);
    assert(is_sound_entry(g, words, start, span, a, e));
    assert(is_weighed(g, times, words, c, start, a, e));
    assert(idx % num == a);
    match e.back {
        None => {},
        Some(BacktraceInfo::Term(w)) => {
            assert(t.children =~= seq![word_leaf(words[start])]);
        },
        Some(BacktraceInfo::Chain(b)) => {
            let below = best_tree(c, idx - a + b, words, g.symbols, (fuel - 1) as nat);
            assert(below is Some);
            lemma_flat_bounds(n, num, start, span, b as int);
            assert(idx - a + b == flat(n, num, start, span, b as int));
            lemma_best_tree_weighs(
                g,
                times,
                words,
                c,
                mode,
                top,
                start,
                span,
                b as int,
                (fuel - 1) as nat,
                below->0,
            );
            assert(t.children[0] == below->0);
            assert(is_decoded_cell(g, times, words, c, mode, start, span)) by {
                let number = cell_number(n, start, span);
            }
            let (seeded, closed, log) = choose|
                seeded: Seq<ChartEntry>,
                closed: Seq<ChartEntry>,
                log: Seq<QueueItem>,
            | #[trigger]
                is_cell_history(g, times, words, c, mode, start, span, seeded, closed, log, cell);
            lemma_tame_history(g, times, words, c, mode, top, start, span, seeded, closed, log);
            let r = lemma_made_chain_entry(
                g,
                times,
                words,
                c,
                mode,
                start,
                span,
                seeded,
                closed,
                log,
                cell,
                a,
            );
            assert(cell[b as int] == c[flat(n, num, start, span, b as int)]);
            assert(is_rule_product(g, times, a, b as int, cell[b as int].weight, e.weight));
        },
        Some(BacktraceInfo::Binary(l, r)) => {
            let (m, b, d) = choose|m: int, b: int, d: int|
                {
                    &&& start < m < start + span
                    &&& 0 <= b < num
                    &&& 0 <= d < num
                    &&& l == #[trigger] flat(n, num, start, m - start, b)
                    &&& r == #[trigger] flat(n, num, m, start + span - m, d)
                    &&& has_binary(g, a, b, d)
                };
            let t1 = best_tree(c, l as int, words, g.symbols, (fuel - 1) as nat);
            let t2 = best_tree(c, r as int, words, g.symbols, (fuel - 1) as nat);
            assert(t1 is Some && t2 is Some);
            lemma_flat_bounds(n, num, start, m - start, b);
            lemma_flat_bounds(n, num, m, start + span - m, d);
            lemma_best_tree_weighs(
                g,
                times,
                words,
                c,
                mode,
                top,
                start,
                m - start,
                b,
                (fuel - 1) as nat,
                t1->0,
            );
            lemma_best_tree_weighs(
                g,
                times,
                words,
                c,
                mode,
                top,
                m,
                start + span - m,
                d,
                (fuel - 1) as nat,
                t2->0,
            );
            assert(t.children[0] == t1->0);
            assert(t.children[1] == t2->0);
            assert(splits(start, span, m));
            assert(is_binary_product(
                g,
                times,
                a,
                b,
                d,
                c[l as int].weight,
                c[r as int].weight,
                e.weight,
            ));
        },
    }
}

/// A complete chart holds for every non-terminal and span at least the
/// weight of every derivation, where the decoder stays among the weights up
/// to `top`, the products of such weights grow with their arguments, and no
/// word has two lexical rules with the same left side.
pub proof fn lemma_entry_bounds_derivation<F: Fn(u64, u64) -> u64>(
    g: GrammarView,
    times: &F,
    words: Seq<Seq<char>>,
    c: Seq<ChartEntry>,
    mode: CykMode,
    top: u64,
    t: ParseView,
    start: int,
    span: int,
    a: int,
    w: u64,
)
    requires
        g.numbers_in_range(),
        is_sound_chart(g, words, c),
        is_decoded_chart(g, times, words, c, mode),
        is_complete_chart(g, times, words, c),
        is_monotone(times, top),
        is_tame(g, times, top),
        has_unique_lexical(g),
        weighs(g, times, words, t, start, span, a, w),
    ensures
        c[flat(words.len() as int, g.symbols.len() as int, start, span, a)].weight >= w,
    decreases t,
{
    let n = words.len() as int;
    let num = g.symbols.len() as int;
    let at = cell_number(n, start, span) * num;
    let cell = c.subrange(at, at + num);
    lemma_flat_bounds(n, num, start, span, a);
    assert(cell[a] == c[flat(n, num, start, span, a)]);
    assert(is_complete_cell(g, times, words, c, start, span)) by {
        let number = cell_number(n, start, span);
    }
    lemma_entry_upto(g, times, words, c, mode, top, start, span, a);
    if span == 1 && t.children == seq![word_leaf(words[start])] && has_lexical_weight(
        g,
        a,
        words[start],
        w,
    ) {
        let rules = g.lexicon[words[start]];
        let j = choose|j: int|
            0 <= j < rules.len() && (#[trigger] rules[j]).0 == a && rules[j].1 == w;
        assert(lexical_rules_of(g, words[start]) == rules);
        assert forall|k: int| j < k < rules.len() implies (#[trigger] rules[k]).0 != rules[j].0 by {
            assert(g.lexicon[words[start]][j].0 != g.lexicon[words[start]][k].0);
        }
        assert(cell[rules[j].0 as int].weight >= rules[j].1);
    } else if t.children.len() == 1 {
        let (b, q) = choose|b: int, q: u64|
            0 <= b < g.symbols.len() && weighs(g, times, words, t.children[0], start, span, b, q)
                && #[trigger] is_rule_product(g, times, a, b, q, w);
        lemma_entry_bounds_derivation(
            g,
            times,
            words,
            c,
            mode,
            top,
            t.children[0],
            start,
            span,
            b,
            q,
        );
        lemma_entry_upto(g, times, words, c, mode, top, start, span, b);
        lemma_flat_bounds(n, num, start, span, b);
        assert(cell[b] == c[flat(n, num, start, span, b)]);
        let j = choose|j: int|
            0 <= j < g.chains[b as u32].len() && g.chains[b as u32][j].0 == a && #[trigger] times.ensures(
                (g.chains[b as u32][j].1, q),
                w,
            );
        if cell[b].weight > 0 {
            assert(is_offered(g, times, cell, Multiset::empty(), b, j));
            assert(cell[a].weight >= w) by {
                broadcast use vstd::multiset::group_multiset_axioms;

            }
        }
    } else {
        let (m, b, d, left, right) = choose|m: int, b: int, d: int, left: u64, right: u64|
            {
                &&& #[trigger] splits(start, span, m)
                &&& weighs(g, times, words, t.children[0], start, m - start, b, left)
                &&& weighs(g, times, words, t.children[1], m, start + span - m, d, right)
                &&& #[trigger] is_binary_product(g, times, a, b, d, left, right, w)
            };
        lemma_entry_bounds_derivation(
            g,
            times,
            words,
            c,
            mode,
            top,
            t.children[0],
            start,
            m - start,
            b,
            left,
        );
        lemma_entry_upto(g, times, words, c, mode, top, start, m - start, b);
        lemma_entry_upto(g, times, words, c, mode, top, m, start + span - m, d);
        lemma_entry_bounds_derivation(
            g,
            times,
            words,
            c,
            mode,
            top,
            t.children[1],
            m,
            start + span - m,
            d,
            right,
        );
        let (j, p) = choose|j: int, p: u64|
            0 <= j < g.binaries[a as u32].len() && g.binaries[a as u32][j].0 == b && g.binaries[a as u32][j].1
                == d && #[trigger] times.ensures((g.binaries[a as u32][j].2, left), p)
                && times.ensures((p, right), w);
        assert(is_candidate(g, num, start, span, a, m, j));
        assert(is_binary_bound(g, times, c, n, start, span, a, m, j, cell[a].weight));
    }
}

} // verus!
