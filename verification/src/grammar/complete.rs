//! What the chart of the decoder holds: that the weight of every entry is
//! accounted for by a rule and the weights it joins, and, where the decoder
//! does not prune, that no rule gives more than the chart holds, so that
//! the chart has an entry wherever there is a derivation.

use vstd::prelude::*;
use vstd::multiset::Multiset;
use crate::grammar::cell::{BacktraceInfo, ChartEntry};
use crate::grammar::chart::{cell_number, is_span, triangle};
use crate::grammar::closure::{has_chain, is_chain_closed, is_chain_product, is_offered};
use crate::grammar::derivation::{
    derives, flat, has_binary, has_lexical, lemma_flat_bounds, lemma_flat_injective, ParseView,
};
use crate::grammar::parse::GrammarView;
use crate::sentence::word_leaf;

verus! {

/// Whether the grammar has a rule of weight `weight` by which non-terminal `a` yields the word `w`.
pub open spec fn has_lexical_weight(g: GrammarView, a: int, w: Seq<char>, weight: u64) -> bool {
    &&& g.lexicon.contains_key(w)
    &&& exists|j: int|
        0 <= j < g.lexicon[w].len() && (#[trigger] g.lexicon[w][j]).0 == a && g.lexicon[w][j].1
            == weight
}

/// Whether a seed of the cell of word `i` has the weight of its rule: it
/// is no entry, or an entry for the word with the weight of a lexical rule.
pub open spec fn has_term_weight(
    g: GrammarView,
    words: Seq<Seq<char>>,
    i: int,
    a: int,
    e: ChartEntry,
) -> bool {
    e.back is None || (e.back == Some(BacktraceInfo::Term(i as usize)) && has_lexical_weight(
        g,
        a,
        words[i],
        e.weight,
    ))
}

/// Whether `r` is what `times` gave as the product of the weight of a rule
/// by which `a` yields `b` and `c`, the weight `left` and the weight `right`.
pub open spec fn is_binary_product<F: Fn(u64, u64) -> u64>(
    g: GrammarView,
    times: &F,
    a: int,
    b: int,
    c: int,
    left: u64,
    right: u64,
    r: u64,
) -> bool {
    &&& 0 <= a <= u32::MAX
    &&& g.binaries.contains_key(a as u32)
    &&& exists|j: int, p: u64|
        0 <= j < g.binaries[a as u32].len() && g.binaries[a as u32][j].0 == b && g.binaries[a as u32][j].1
            == c && #[trigger] times.ensures((g.binaries[a as u32][j].2, left), p) && times.ensures(
            (p, right),
            r,
        )
}

/// Whether the weight of the entry `e` of non-terminal `a` in a cell that
/// starts at word `start` is accounted for in the chart `c`: for a word
/// trace it is the weight of a lexical rule; for a chain trace it is the
/// product of the weight of a chain rule and a weight above 0; for a binary
/// trace it is the product of the weight of a rule and the weights of the
/// two entries that the trace names. Products are what `times` gave.
/// Which weight a chain entry holds the product of is told by the closure
/// of its cell.
pub open spec fn is_weighed<F: Fn(u64, u64) -> u64>(
    g: GrammarView,
    times: &F,
    words: Seq<Seq<char>>,
    c: Seq<ChartEntry>,
    start: int,
    a: int,
    e: ChartEntry,
) -> bool {
    let num = g.symbols.len() as int;
    match e.back {
        None => true,
        Some(BacktraceInfo::Term(t)) => has_lexical_weight(g, a, words[start], e.weight),
        Some(BacktraceInfo::Chain(b)) => is_chain_product(
            g,
            times,
            a,
            b as int,
            u64::MAX,
            e.weight,
        ),
        Some(BacktraceInfo::Binary(l, r)) => l < c.len() && r < c.len() && is_binary_product(
            g,
            times,
            a,
            (l as int) % num,
            (r as int) % num,
            c[l as int].weight,
            c[r as int].weight,
            e.weight,
        ),
    }
}

/// The weights of the entries of the spans that come before the span
/// `(start_now, span_now)` are accounted for.
pub open spec fn is_weighed_before<F: Fn(u64, u64) -> u64>(
    g: GrammarView,
    times: &F,
    words: Seq<Seq<char>>,
    c: Seq<ChartEntry>,
    span_now: int,
    start_now: int,
) -> bool {
    let n = words.len() as int;
    let num = g.symbols.len() as int;
    forall|start: int, span: int, a: int|
        is_span(n, start, span) && 0 <= a < num && (span < span_now || (span == span_now && start
            < start_now)) ==> is_weighed(
            g,
            times,
            words,
            c,
            start,
            a,
            #[trigger] c[flat(n, num, start, span, a)],
        )
}

/// Whether the weight of every entry of the chart is accounted for.
pub open spec fn is_weighed_chart<F: Fn(u64, u64) -> u64>(
    g: GrammarView,
    times: &F,
    words: Seq<Seq<char>>,
    c: Seq<ChartEntry>,
) -> bool {
    is_weighed_before(g, times, words, c, words.len() as int + 1, 0)
}

/// Whether the rule at place `j` among the rules of non-terminal `a` can
/// join two entries at the split `m` of a span.
pub open spec fn is_candidate(
    g: GrammarView,
    num: int,
    start: int,
    span: int,
    a: int,
    m: int,
    j: int,
) -> bool {
    &&& 0 <= a < num
    &&& a <= u32::MAX
    &&& start < m < start + span
    &&& g.binaries.contains_key(a as u32)
    &&& 0 <= j < g.binaries[a as u32].len()
}

/// Whether `weight` is at least what the rule at place `j` among the rules
/// of non-terminal `a` gives at the split `m` of a span: the product of the
/// rule's weight and the weights that the chart `c` holds for the rule's
/// two non-terminals in the two parts of the span, as `times` gives it.
pub open spec fn is_binary_bound<F: Fn(u64, u64) -> u64>(
    g: GrammarView,
    times: &F,
    c: Seq<ChartEntry>,
    n: int,
    start: int,
    span: int,
    a: int,
    m: int,
    j: int,
    weight: u64,
) -> bool {
    let num = g.symbols.len() as int;
    let rule = g.binaries[a as u32][j];
    let left = c[flat(n, num, start, m - start, rule.0 as int)].weight;
    let right = c[flat(n, num, m, start + span - m, rule.1 as int)].weight;
    exists|p: u64, r: u64|
        #![trigger times.ensures((rule.2, left), p), times.ensures((p, right), r)]
        times.ensures((rule.2, left), p) && times.ensures((p, right), r) && weight >= r
}

/// Whether the entries of `cell` are at least what the rules give that come
/// before the rule at place `j_now` of non-terminal `a_now` at the split
/// `m_now`: the rules are taken non-terminal by non-terminal, split by split.
pub open spec fn is_offered_upto<F: Fn(u64, u64) -> u64>(
    g: GrammarView,
    times: &F,
    c: Seq<ChartEntry>,
    cell: Seq<ChartEntry>,
    n: int,
    start: int,
    span: int,
    a_now: int,
    m_now: int,
    j_now: int,
) -> bool {
    forall|a: int, m: int, j: int|
        is_candidate(g, g.symbols.len() as int, start, span, a, m, j) && (a < a_now || (a == a_now
            && (m < m_now || (m == m_now && j < j_now)))) ==> #[trigger] is_binary_bound(
            g,
            times,
            c,
            n,
            start,
            span,
            a,
            m,
            j,
            cell[a].weight,
        )
}

/// Whether the entries of `cell` are at least the weights of the lexical
/// rules among the first `done` of `rules`: of several rules for one
/// non-terminal the last one counts.
pub open spec fn is_lexical_bound(rules: Seq<(u32, u64)>, cell: Seq<ChartEntry>, done: int) -> bool {
    forall|j: int|
        0 <= j < done && (forall|k: int| j < k < done ==> (#[trigger] rules[k]).0 != rules[j].0)
            ==> cell[(#[trigger] rules[j]).0 as int].weight >= rules[j].1
}

/// The lexical rules that yield the word `w`; none where the lexicon lacks the word.
pub open spec fn lexical_rules_of(g: GrammarView, w: Seq<char>) -> Seq<(u32, u64)> {
    if g.lexicon.contains_key(w) {
        g.lexicon[w]
    } else {
        Seq::empty()
    }
}

/// Whether the cell of a span is complete: every entry is at least what
/// every rule with two non-terminals gives at every split of the span, the
/// entries of the cell of a word are at least the weights of the lexical
/// rules for the word, and the cell is closed under the chain rules.
pub open spec fn is_complete_cell<F: Fn(u64, u64) -> u64>(
    g: GrammarView,
    times: &F,
    words: Seq<Seq<char>>,
    c: Seq<ChartEntry>,
    start: int,
    span: int,
) -> bool {
    let n = words.len() as int;
    let num = g.symbols.len() as int;
    let at = cell_number(n, start, span) * num;
    &&& is_offered_upto(g, times, c, c.subrange(at, at + num), n, start, span, num, 0, 0)
    &&& span == 1 ==> is_lexical_bound(
        lexical_rules_of(g, words[start]),
        c.subrange(at, at + num),
        lexical_rules_of(g, words[start]).len() as int,
    )
    &&& is_chain_closed(g, times, c.subrange(at, at + num))
}

/// The cells of the spans that come before the span `(start_now, span_now)` are complete.
pub open spec fn is_complete_before<F: Fn(u64, u64) -> u64>(
    g: GrammarView,
    times: &F,
    words: Seq<Seq<char>>,
    c: Seq<ChartEntry>,
    span_now: int,
    start_now: int,
) -> bool {
    let n = words.len() as int;
    forall|start: int, span: int|
        #![trigger cell_number(n, start, span)]
        is_span(n, start, span) && (span < span_now || (span == span_now && start < start_now))
            ==> is_complete_cell(g, times, words, c, start, span)
}

/// Whether every cell of the chart is complete. This is what the decoder
/// gives where it does not prune.
pub open spec fn is_complete_chart<F: Fn(u64, u64) -> u64>(
    g: GrammarView,
    times: &F,
    words: Seq<Seq<char>>,
    c: Seq<ChartEntry>,
) -> bool {
    is_complete_before(g, times, words, c, words.len() as int + 1, 0)
}

/// Putting the cell of the span `(i, r)` into a chart leaves the cells
/// that come before it complete, and makes the cell of the span complete
/// where its entries are.
pub proof fn lemma_complete_cell_stays<F: Fn(u64, u64) -> u64>(
    g: GrammarView,
    times: &F,
    words: Seq<Seq<char>>,
    before: Seq<ChartEntry>,
    after: Seq<ChartEntry>,
    cell: Seq<ChartEntry>,
    i: int,
    r: int,
    start: int,
    span: int,
)
    requires
        g.numbers_in_range(),
        before.len() == triangle(words.len() as int) * g.symbols.len(),
        after.len() == before.len(),
        cell.len() == g.symbols.len(),
        is_span(words.len() as int, i, r),
        is_span(words.len() as int, start, span),
        span < r || (span == r && start <= i),
        forall|idx: int|
            0 <= idx < before.len() ==> #[trigger] after[idx] == (if cell_number(
                words.len() as int,
                i,
                r,
            ) * g.symbols.len() <= idx < cell_number(words.len() as int, i, r) * g.symbols.len()
                + cell.len() {
                cell[idx - cell_number(words.len() as int, i, r) * g.symbols.len()]
            } else {
                before[idx]
            }),
        is_offered_upto(g, times, before, cell, words.len() as int, i, r, g.symbols.len() as int, 0, 0),
        r == 1 ==> is_lexical_bound(
            lexical_rules_of(g, words[i]),
            cell,
            lexical_rules_of(g, words[i]).len() as int,
        ),
        is_chain_closed(g, times, cell),
        is_complete_before(g, times, words, before, r, i),
    ensures
        is_complete_cell(g, times, words, after, start, span),
{
    let n = words.len() as int;
    let num = g.symbols.len() as int;
    let at = cell_number(n, i, r) * num;
    let here = cell_number(n, start, span) * num;
    lemma_flat_bounds(n, num, i, r, 0);
    lemma_flat_bounds(n, num, start, span, 0);
    let mine = if span == r && start == i {
        cell
    } else {
        before.subrange(here, here + num)
    };
    assert(after.subrange(here, here + num) =~= mine) by {
        assert forall|a: int| 0 <= a < num implies after.subrange(here, here + num)[a]
            == mine[a] by {
            lemma_flat_bounds(n, num, start, span, a);
            if !(span == r && start == i) {
                let idx = here + a;
                if at <= idx < at + num {
                    lemma_flat_bounds(n, num, i, r, idx - at);
                    lemma_flat_injective(n, num, start, span, a, i, r, idx - at);
                }
            }
        }
    }
    if !(span == r && start == i) {
        assert(is_complete_cell(g, times, words, before, start, span)) by {
            let number = cell_number(n, start, span);
        }
    }
    assert forall|a: int, m: int, j: int|
        is_candidate(g, num, start, span, a, m, j) implies #[trigger] is_binary_bound(
        g,
        times,
        after,
        n,
        start,
        span,
        a,
        m,
        j,
        mine[a].weight,
    ) by {
        let rule = g.binaries[a as u32][j];
        let b = rule.0 as int;
        let c = rule.1 as int;
        assert(b < num && c < num);
        let left = flat(n, num, start, m - start, b);
        let right = flat(n, num, m, start + span - m, c);
        lemma_flat_bounds(n, num, start, m - start, b);
        lemma_flat_bounds(n, num, m, start + span - m, c);
        if at <= left < at + num {
            lemma_flat_bounds(n, num, i, r, left - at);
            lemma_flat_injective(n, num, start, m - start, b, i, r, left - at);
        }
        if at <= right < at + num {
            lemma_flat_bounds(n, num, i, r, right - at);
            lemma_flat_injective(n, num, m, start + span - m, c, i, r, right - at);
        }
        assert(after[left] == before[left]);
        assert(after[right] == before[right]);
        assert(is_binary_bound(g, times, before, n, start, span, a, m, j, mine[a].weight));
    }
}

/// What the rules have given stays given where the weights of the cell grow.
pub proof fn lemma_offered_grows<F: Fn(u64, u64) -> u64>(
    g: GrammarView,
    times: &F,
    c: Seq<ChartEntry>,
    cell0: Seq<ChartEntry>,
    cell: Seq<ChartEntry>,
    n: int,
    start: int,
    span: int,
    a_now: int,
    m_now: int,
    j_now: int,
)
    requires
        cell.len() == cell0.len(),
        cell.len() == g.symbols.len(),
        forall|b: int| 0 <= b < cell.len() ==> (#[trigger] cell[b]).weight >= cell0[b].weight,
        is_offered_upto(g, times, c, cell0, n, start, span, a_now, m_now, j_now),
    ensures
        is_offered_upto(g, times, c, cell, n, start, span, a_now, m_now, j_now),
{
    let num = g.symbols.len() as int;
    assert forall|a: int, m: int, j: int|
        is_candidate(g, num, start, span, a, m, j) && (a < a_now || (a == a_now && (m < m_now || (m
            == m_now && j < j_now)))) implies #[trigger] is_binary_bound(
        g,
        times,
        c,
        n,
        start,
        span,
        a,
        m,
        j,
        cell[a].weight,
    ) by {
        assert(is_binary_bound(g, times, c, n, start, span, a, m, j, cell0[a].weight));
        assert(cell[a].weight >= cell0[a].weight);
        lemma_bound_grows(g, times, c, n, start, span, a, m, j, cell0[a].weight, cell[a].weight);
    }
}

/// A weight that is at least what a rule gives stays so when it grows.
pub proof fn lemma_bound_grows<F: Fn(u64, u64) -> u64>(
    g: GrammarView,
    times: &F,
    c: Seq<ChartEntry>,
    n: int,
    start: int,
    span: int,
    a: int,
    m: int,
    j: int,
    weight: u64,
    more: u64,
)
    requires
        weight <= more,
        is_binary_bound(g, times, c, n, start, span, a, m, j, weight),
    ensures
        is_binary_bound(g, times, c, n, start, span, a, m, j, more),
{
    let num = g.symbols.len() as int;
    let rule = g.binaries[a as u32][j];
    let left = c[flat(n, num, start, m - start, rule.0 as int)].weight;
    let right = c[flat(n, num, m, start + span - m, rule.1 as int)].weight;
    let (p, r) = choose|p: u64, r: u64|
        #![trigger times.ensures((rule.2, left), p), times.ensures((p, right), r)]
        times.ensures((rule.2, left), p) && times.ensures((p, right), r) && weight >= r;
    assert(times.ensures((rule.2, left), p) && times.ensures((p, right), r) && more >= r);
}

/// Whether every rule of the grammar has a weight above 0.
pub open spec fn has_positive_weights(g: GrammarView) -> bool {
    &&& forall|w: Seq<char>, j: int|
        g.lexicon.contains_key(w) && 0 <= j < g.lexicon[w].len() ==> (#[trigger] g.lexicon[w][j]).1
            > 0
    &&& forall|b: u32, j: int|
        g.chains.contains_key(b) && 0 <= j < g.chains[b].len() ==> (#[trigger] g.chains[b][j]).1 > 0
    &&& forall|a: u32, j: int|
        g.binaries.contains_key(a) && 0 <= j < g.binaries[a].len() ==> (
        #[trigger] g.binaries[a][j]).2 > 0
}

/// Whether products do not vanish: what `times` gives for two weights above 0 is above 0.
pub open spec fn is_positive<F: Fn(u64, u64) -> u64>(times: &F) -> bool {
    forall|w: u64, q: u64, r: u64| w > 0 && q > 0 && #[trigger] times.ensures((w, q), r) ==> r > 0
}

/// The last of the rules from place `j` on that have the left side of the rule at `j`.
proof fn lemma_last_rule(rules: Seq<(u32, u64)>, j: int) -> (k: int)
    requires
        0 <= j < rules.len(),
    ensures
        j <= k < rules.len(),
        rules[k].0 == rules[j].0,
        forall|i: int| k < i < rules.len() ==> (#[trigger] rules[i]).0 != rules[k].0,
    decreases rules.len() - j,
{
    if exists|i: int| j < i < rules.len() && (#[trigger] rules[i]).0 == rules[j].0 {
        let i = choose|i: int| j < i < rules.len() && (#[trigger] rules[i]).0 == rules[j].0;
        lemma_last_rule(rules, i)
    } else {
        j
    }
}

/// A complete chart holds an entry for every non-terminal and span of
/// which there is a derivation, where the rules have weights above 0 and
/// products do not vanish.
pub proof fn lemma_derivation_has_entry<F: Fn(u64, u64) -> u64>(
    g: GrammarView,
    times: &F,
    words: Seq<Seq<char>>,
    c: Seq<ChartEntry>,
    t: ParseView,
    start: int,
    span: int,
    a: int,
)
    requires
        g.numbers_in_range(),
        c.len() == triangle(words.len() as int) * g.symbols.len(),
        is_complete_chart(g, times, words, c),
        has_positive_weights(g),
        is_positive(times),
        derives(g, words, t, start, span, a),
    ensures
        c[flat(words.len() as int, g.symbols.len() as int, start, span, a)].weight > 0,
    decreases t,
{
    let n = words.len() as int;
    let num = g.symbols.len() as int;
    let at = cell_number(n, start, span) * num;
    let cell = c.subrange(at, at + num);
    lemma_flat_bounds(n, num, start, span, a);
    assert(cell[a] == c[flat(n, num, start, span, a)]);
    assert(is_complete_cell(g, times, words, c, start, span)) by {
        let number = cell_number(n, start, span);
    }
    if span == 1 && t.children == seq![word_leaf(words[start])] && has_lexical(g, a, words[start]) {
        let rules = g.lexicon[words[start]];
        let j = choose|j: int| 0 <= j < rules.len() && (#[trigger] rules[j]).0 == a;
        let k = lemma_last_rule(rules, j);
        assert(lexical_rules_of(g, words[start]) == rules);
        assert(cell[rules[k].0 as int].weight >= rules[k].1);
    } else if t.children.len() == 1 {
        let b = choose|b: int| #[trigger]
            has_chain(g, a, b) && 0 <= b < g.symbols.len() && derives(
                g,
                words,
                t.children[0],
                start,
                span,
                b,
            );
        lemma_derivation_has_entry(g, times, words, c, t.children[0], start, span, b);
        lemma_flat_bounds(n, num, start, span, b);
        assert(cell[b] == c[flat(n, num, start, span, b)]);
        let j = choose|j: int|
            0 <= j < g.chains[b as u32].len() && (#[trigger] g.chains[b as u32][j]).0 == a;
        assert(is_offered(g, times, cell, Multiset::empty(), b, j));
        assert(cell[a].weight > 0) by {
            broadcast use vstd::multiset::group_multiset_axioms;

        }
    } else {
        let (m, b, d) = choose|m: int, b: int, d: int|
            {
                &&& start < m < start + span
                &&& #[trigger] has_binary(g, a, b, d)
                &&& derives(g, words, t.children[0], start, m - start, b)
                &&& derives(g, words, t.children[1], m, #[trigger] (start + span - m), d)
            };
        lemma_derivation_has_entry(g, times, words, c, t.children[0], start, m - start, b);
        lemma_derivation_has_entry(g, times, words, c, t.children[1], m, start + span - m, d);
        let j = choose|j: int|
            0 <= j < g.binaries[a as u32].len() && (#[trigger] g.binaries[a as u32][j]).0 == b
                && g.binaries[a as u32][j].1 == d;
        assert(is_candidate(g, num, start, span, a, m, j));
        assert(is_binary_bound(g, times, c, n, start, span, a, m, j, cell[a].weight));
    }
}

} // verus!
