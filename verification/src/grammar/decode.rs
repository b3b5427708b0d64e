//! The CYK decoder: it fills the chart span by span and reads the best tree off it.

use vstd::prelude::*;
use crate::grammar::cell::{
    no_entry, prune_fixed_size, prune_threshold, pruned_below, BacktraceInfo, ChartEntry, CykMode,
};
use crate::grammar::chart::{cell_number, is_span, lemma_successor_fits, triangle, Chart};
use crate::grammar::closure::{is_chain_closed, is_closure_of, lemma_closed_entry};
use crate::grammar::complete::{
    has_lexical_weight, has_positive_weights, has_term_weight, is_binary_bound, is_binary_product,
    is_complete_before, is_complete_cell, is_complete_chart, is_lexical_bound, is_offered_upto,
    is_positive, is_weighed, is_weighed_before, is_weighed_chart, lemma_complete_cell_stays,
    lemma_derivation_has_entry, lemma_offered_grows, lexical_rules_of,
};
use crate::grammar::derivation::{
    best_tree, derives, flat, has_binary, has_lexical, is_seed, is_sound_before, is_sound_chart,
    is_sound_entry, is_sound_trace, is_trace_in_range, lemma_best_tree_derives,
    lemma_derivation_needs_words, lemma_derivation_yield, lemma_flat_bounds, lemma_flat_injective,
    lemma_sound_in_range, parse_view, span_leaves, traces_in_range, ParseView,
};
use crate::grammar::history::{
    is_beam_of, is_cell_history, is_chart_with, is_decoded_before, is_decoded_chart, is_finished,
    is_decoded_cell, is_made_cell, is_size_beam, is_tame, is_threshold_beam,
    lemma_chart_entry_has_tree, lemma_decoded_cell_stays,
};
use crate::grammar::parse::GrammarParse;
use crate::grammar::queue::QueueItem;
use crate::grammar::weight::{
    has_unique_lexical, is_heaviest, is_monotone, lemma_best_tree_weighs,
    lemma_entry_bounds_derivation, weighs,
};
use crate::sentence::{word_leaf, Sentence};
use crate::tree::{label_views, lemma_tree_view, NodeType, Tree};

verus! {

/// The start of the cell of an entry lies a whole cell before the end of the entries.
proof fn lemma_same_cell(len: int, num: int, idx: int, b: int)
    requires
        num > 0,
        len % num == 0,
        0 <= idx < len,
        0 <= b < num,
    ensures
        0 <= idx - idx % num + b < len,
        0 <= idx % num <= idx,
{
    let q = idx / num;
    assert(0 <= q * num) by (nonlinear_arith)
        requires
            num > 0,
            q == idx / num,
            idx >= 0,
    ;
    let total = len / num;
    assert(idx == q * num + idx % num) by (nonlinear_arith)
        requires
            num > 0,
            q == idx / num,
    ;
    assert(len == total * num) by (nonlinear_arith)
        requires
            num > 0,
            len % num == 0,
            total == len / num,
    ;
    assert(q < total) by (nonlinear_arith)
        requires
            q * num <= idx,
            idx < total * num,
            num > 0,
    ;
    assert((q + 1) * num <= total * num) by (nonlinear_arith)
        requires
            q < total,
            num > 0,
    ;
    assert((q + 1) * num == q * num + num) by (nonlinear_arith);
}

fn build_tree(
    c: &[ChartEntry],
    c_idx: usize,
    sentence: &Sentence<String>,
    lookup: &[String],
    fuel: usize,
) -> (r: Option<Tree<NodeType<String, String>>>)
    requires
        traces_in_range(c@, sentence@.len() as int, lookup@.len() as int),
        c_idx < c@.len(),
    ensures
        match r {
            Some(t) => best_tree(c@, c_idx as int, sentence@, label_views(lookup@), fuel as nat)
                == Some(t@),
            None => best_tree(c@, c_idx as int, sentence@, label_views(lookup@), fuel as nat)
                is None,
        },
    decreases fuel,
{
    if fuel == 0 {
        return None;
    }
    let num_nt = lookup.len();
    let len = c.len();
    let nt = c_idx % num_nt;
    match c[c_idx].back {
        None => None,
        Some(BacktraceInfo::Term(t)) => {
            let leaf = Tree { root: NodeType::Terminal(sentence.0[t].clone()), children: Vec::new() };
            let mut children: Vec<Tree<NodeType<String, String>>> = Vec::new();
            proof {
                lemma_tree_view(leaf);
                assert(leaf@.children =~= Seq::empty());
            }
            children.push(leaf);
            let out = Tree { root: NodeType::NonTerminal(lookup[nt].clone()), children };
            proof {
                lemma_tree_view(out);
                assert(out@.children =~= seq![word_leaf(sentence@[t as int])]);
            }
            Some(out)
        },
        Some(BacktraceInfo::Chain(b)) => {
            proof {
                assert(c@[c_idx as int].back == Some(BacktraceInfo::Chain(b)));
                assert(b < num_nt);
                assert(nt == (c_idx as int) % (num_nt as int));
                lemma_same_cell(c@.len() as int, num_nt as int, c_idx as int, b as int);
                assert(c_idx - nt + b < len);
            }
            match build_tree(c, c_idx - nt + b, sentence, lookup, fuel - 1) {
                Some(tree) => {
                    let mut children: Vec<Tree<NodeType<String, String>>> = Vec::new();
                    let ghost below = tree@;
                    children.push(tree);
                    let out = Tree { root: NodeType::NonTerminal(lookup[nt].clone()), children };
                    proof {
                        lemma_tree_view(out);
                        assert(out@.children =~= seq![below]);
                    }
                    Some(out)
                },
                None => None,
            }
        },
        Some(BacktraceInfo::Binary(l, r)) => {
            let left = build_tree(c, l, sentence, lookup, fuel - 1);
            let right = build_tree(c, r, sentence, lookup, fuel - 1);
            match (left, right) {
                (Some(tree_l), Some(tree_r)) => {
                    let mut children: Vec<Tree<NodeType<String, String>>> = Vec::new();
                    let ghost v1 = tree_l@;
                    let ghost v2 = tree_r@;
                    children.push(tree_l);
                    children.push(tree_r);
                    let out = Tree { root: NodeType::NonTerminal(lookup[nt].clone()), children };
                    proof {
                        lemma_tree_view(out);
                        assert(out@.children =~= seq![v1, v2]);
                    }
                    Some(out)
                },
                _ => None,
            }
        },
    }
}

/// A cell of `num` entries that are not there.
fn new_cell(num: usize) -> (cell: Vec<ChartEntry>)
    ensures
        cell@.len() == num,
        forall|a: int| 0 <= a < num ==> #[trigger] cell@[a] == no_entry(),
{
    let mut cell: Vec<ChartEntry> = Vec::new();
    let mut k: usize = 0;
    while k < num
        invariant
            k <= num,
            cell@.len() == k,
            forall|a: int| 0 <= a < k ==> #[trigger] cell@[a] == no_entry(),
        decreases num - k,
    {
        cell.push(ChartEntry { weight: 0, back: None });
        k += 1;
    }
    cell
}

/// Puts the entries of `cell` into the chart from place `at` on.
fn store_cell(chart: &mut Chart<ChartEntry>, at: usize, cell: &Vec<ChartEntry>)
    requires
        old(chart).wf(),
        cell@.len() == old(chart).width(),
        at + cell@.len() <= old(chart).entries().len(),
    ensures
        final(chart).wf(),
        final(chart).words() == old(chart).words(),
        final(chart).width() == old(chart).width(),
        final(chart).entries().len() == old(chart).entries().len(),
        forall|idx: int|
            0 <= idx < old(chart).entries().len() ==> #[trigger] final(chart).entries()[idx] == (if at
                <= idx < at + cell@.len() {
                cell@[idx - at]
            } else {
                old(chart).entries()[idx]
            }),
{
    proof {
        chart.lemma_wf();
    }
    let mut a: usize = 0;
    while a < cell.len()
        invariant
            a <= cell@.len(),
            chart.entries().len() <= usize::MAX,
            chart.wf(),
            chart.words() == old(chart).words(),
            chart.width() == old(chart).width(),
            chart.entries().len() == old(chart).entries().len(),
            at + cell@.len() <= chart.entries().len(),
            forall|idx: int|
                0 <= idx < chart.entries().len() ==> #[trigger] chart.entries()[idx] == (if at <= idx
                    < at + a {
                    cell@[idx - at]
                } else {
                    old(chart).entries()[idx]
                }),
        decreases cell@.len() - a,
    {
        chart.set(at + a, cell[a]);
        a += 1;
    }
}

/// Whether the traces of the entries `c` point into the chart, a sentence
/// of `n` words and `num` non-terminals.
pub fn check_traces(c: &[ChartEntry], n: usize, num: usize) -> (r: bool)
    ensures
        r == traces_in_range(c@, n as int, num as int),
{
    if num == 0 {
        return false;
    }
    let len = c.len();
    if len % num != 0 {
        return false;
    }
    let mut idx: usize = 0;
    while idx < len
        invariant
            idx <= len,
            len == c@.len(),
            num > 0,
            forall|i: int|
                0 <= i < idx ==> is_trace_in_range(
                    (#[trigger] c@[i]).back,
                    len as int,
                    n as int,
                    num as int,
                ),
        decreases len - idx,
    {
        let ok = match c[idx].back {
            None => true,
            Some(BacktraceInfo::Term(t)) => t < n,
            Some(BacktraceInfo::Chain(b)) => b < num,
            Some(BacktraceInfo::Binary(l, r)) => l < len && r < len,
        };
        if !ok {
            assert(!is_trace_in_range(c@[idx as int].back, len as int, n as int, num as int));
            return false;
        }
        idx += 1;
    }
    assert forall|i: int| 0 <= i < c@.len() implies match (#[trigger] c@[i]).back {
        None => true,
        Some(BacktraceInfo::Term(t)) => t < n,
        Some(BacktraceInfo::Chain(b)) => b < num,
        Some(BacktraceInfo::Binary(l, r)) => l < c@.len() && r < c@.len(),
    } by {
        assert(is_trace_in_range(c@[i].back, len as int, n as int, num as int));
    }
    true
}

impl GrammarParse {
    /// Whether a chart for a sentence of `n` words can be indexed on this machine.
    pub open spec fn chart_fits(self, n: int) -> bool {
        &&& n * (n + 1) <= usize::MAX
        &&& triangle(n) * self@.symbols.len() <= usize::MAX
    }

    /// Whether a chart for a sentence of `sentence_len` words can be indexed on this machine.
    pub fn can_chart(&self, sentence_len: usize) -> (r: bool)
        ensures
            r == self.chart_fits(sentence_len as int),
    {
        if sentence_len == usize::MAX {
            assert(sentence_len * (sentence_len + 1) > usize::MAX) by (nonlinear_arith)
                requires
                    sentence_len == usize::MAX,
                    usize::MAX >= 0xffff_ffff,
            ;
            return false;
        }
        match sentence_len.checked_mul(sentence_len + 1) {
            None => false,
            Some(twice) => {
                let cells = twice / 2;
                match cells.checked_mul(self.num_nonterminals()) {
                    None => false,
                    Some(_) => true,
                }
            },
        }
    }

    /// Starts the cell of word `i` with the entries of the lexical rules that yield the word.
    fn seed_lexical(&self, sentence: &Sentence<String>, i: usize, cell: &mut Vec<ChartEntry>)
        requires
            self.wf(),
            i < sentence@.len(),
            old(cell)@.len() == self@.symbols.len(),
            forall|a: int| 0 <= a < old(cell)@.len() ==> #[trigger] old(cell)@[a] == no_entry(),
        ensures
            final(cell)@.len() == old(cell)@.len(),
            forall|a: int|
                0 <= a < old(cell)@.len() ==> is_seed(
                    self@,
                    sentence@,
                    i as int,
                    1,
                    a,
                    #[trigger] final(cell)@[a],
                ),
            forall|a: int|
                0 <= a < old(cell)@.len() ==> has_term_weight(
                    self@,
                    sentence@,
                    i as int,
                    a,
                    #[trigger] final(cell)@[a],
                ),
            is_lexical_bound(
                lexical_rules_of(self@, sentence@[i as int]),
                final(cell)@,
                lexical_rules_of(self@, sentence@[i as int]).len() as int,
            ),
    {
        proof {
            self.lemma_wf();
        }
        let ghost g = self@;
        let ghost words = sentence@;
        let word = &sentence.0[i];
        assert(word@ == words[i as int]);
        match self.lexicals_for(word) {
            Some(lexicals) => {
                let mut k: usize = 0;
                while k < lexicals.len()
                    invariant
                        k <= lexicals.len(),
                        g == self@,
                        g.numbers_in_range(),
                        words == sentence@,
                        i < words.len(),
                        g.lexicon.contains_key(words[i as int]),
                        lexicals@ == g.lexicon[words[i as int]],
                        cell@.len() == g.symbols.len(),
                        forall|a: int|
                            0 <= a < cell@.len() ==> is_seed(
                                g,
                                words,
                                i as int,
                                1,
                                a,
                                #[trigger] cell@[a],
                            ),
                        forall|a: int|
                            0 <= a < cell@.len() ==> has_term_weight(
                                g,
                                words,
                                i as int,
                                a,
                                #[trigger] cell@[a],
                            ),
                        forall|j: int|
                            0 <= j < k && (forall|x: int|
                                j < x < k ==> (#[trigger] lexicals@[x]).0 != lexicals@[j].0)
                                ==> cell@[(#[trigger] lexicals@[j]).0 as int].weight
                                == lexicals@[j].1,
                    decreases lexicals.len() - k,
                {
                    let (nt, weight) = lexicals[k];
                    let ghost cell0 = cell@;
                    proof {
                        assert(g.lexicon[words[i as int]][k as int].0 == nt);
                        assert(g.lexicon[words[i as int]][k as int].1 == weight);
                        assert(has_lexical(g, nt as int, words[i as int]));
                        assert(has_lexical_weight(g, nt as int, words[i as int], weight));
                    }
                    cell[nt as usize] = ChartEntry { weight, back: Some(BacktraceInfo::Term(i)) };
                    proof {
                        assert forall|j: int|
                            0 <= j < k + 1 && (forall|x: int|
                                j < x < k + 1 ==> (#[trigger] lexicals@[x]).0
                                    != lexicals@[j].0) implies cell@[(
                        #[trigger] lexicals@[j]).0 as int].weight == lexicals@[j].1 by {
                            if j < k {
                                assert(lexicals@[k as int].0 != lexicals@[j].0);
                                assert forall|x: int| j < x < k implies (
                                #[trigger] lexicals@[x]).0 != lexicals@[j].0 by {}
                                assert(cell0[lexicals@[j].0 as int].weight == lexicals@[j].1);
                            }
                        }
                    }
                    k += 1;
                }
            },
            None => {},
        }
    }

    /// Starts the cell of the span of `r` words from word `i` on with the
    /// best entries that rules with two non-terminals give: for every
    /// non-terminal, every split of the span and every rule, the product of
    /// the rule's weight and the weights of the two entries it joins takes
    /// the place of the entry where it is above the entry's weight.
    fn seed_binary<F: Fn(u64, u64) -> u64>(
        &self,
        chart: &Chart<ChartEntry>,
        sentence: &Sentence<String>,
        i: usize,
        r: usize,
        cell: &mut Vec<ChartEntry>,
        times: &F,
    )
        requires
            self.wf(),
            chart.wf(),
            chart.words() == sentence@.len(),
            chart.width() == self@.symbols.len(),
            is_span(sentence@.len() as int, i as int, r as int),
            r >= 2,
            old(cell)@.len() == self@.symbols.len(),
            forall|a: int| 0 <= a < old(cell)@.len() ==> #[trigger] old(cell)@[a] == no_entry(),
            forall|x: u64, y: u64| times.requires((x, y)),
        ensures
            final(cell)@.len() == old(cell)@.len(),
            forall|a: int|
                0 <= a < old(cell)@.len() ==> is_seed(
                    self@,
                    sentence@,
                    i as int,
                    r as int,
                    a,
                    #[trigger] final(cell)@[a],
                ),
            forall|a: int|
                0 <= a < old(cell)@.len() ==> is_weighed(
                    self@,
                    times,
                    sentence@,
                    chart.entries(),
                    i as int,
                    a,
                    #[trigger] final(cell)@[a],
                ),
            is_offered_upto(
                self@,
                times,
                chart.entries(),
                final(cell)@,
                sentence@.len() as int,
                i as int,
                r as int,
                self@.symbols.len() as int,
                0,
                0,
            ),
    {
        proof {
            self.lemma_wf();
        }
        let ghost g = self@;
        let ghost words = sentence@;
        let ghost n = words.len() as int;
        let num_nt = cell.len();
        proof {
            chart.lemma_wf();
        }
        let j = i + r;
        let mut a: usize = 0;
        while a < num_nt
            invariant
                a <= num_nt,
                num_nt == cell@.len(),
                num_nt == g.symbols.len(),
                num_nt <= u32::MAX + 1,
                g == self@,
                g.numbers_in_range(),
                words == sentence@,
                n == words.len(),
                chart.wf(),
                chart.words() == n,
                chart.width() == num_nt,
                chart.entries().len() <= usize::MAX,
                is_span(n, i as int, r as int),
                r >= 2,
                j == i + r,
                forall|x: u64, y: u64| times.requires((x, y)),
                is_offered_upto(
                    g,
                    times,
                    chart.entries(),
                    cell@,
                    n,
                    i as int,
                    r as int,
                    a as int,
                    0,
                    0,
                ),
                forall|b: int|
                    0 <= b < cell@.len() ==> is_weighed(
                        g,
                        times,
                        words,
                        chart.entries(),
                        i as int,
                        b,
                        #[trigger] cell@[b],
                    ),
                forall|b: int|
                    0 <= b < cell@.len() ==> is_seed(g, words, i as int, r as int, b, #[trigger] cell@[b]),
            decreases num_nt - a,
        {
            let mut m: usize = i + 1;
            while m < j
                invariant
                    i < m <= j,
                    a < num_nt,
                    num_nt == cell@.len(),
                    num_nt == g.symbols.len(),
                    num_nt <= u32::MAX + 1,
                    g == self@,
                    g.numbers_in_range(),
                    words == sentence@,
                    n == words.len(),
                    chart.wf(),
                    chart.words() == n,
                    chart.width() == num_nt,
                    chart.entries().len() <= usize::MAX,
                    is_span(n, i as int, r as int),
                    j == i + r,
                    forall|x: u64, y: u64| times.requires((x, y)),
                    is_offered_upto(
                        g,
                        times,
                        chart.entries(),
                        cell@,
                        n,
                        i as int,
                        r as int,
                        a as int,
                        m as int,
                        0,
                    ),
                    forall|b: int|
                        0 <= b < cell@.len() ==> is_weighed(
                            g,
                            times,
                            words,
                            chart.entries(),
                            i as int,
                            b,
                            #[trigger] cell@[b],
                        ),
                    forall|b: int|
                        0 <= b < cell@.len() ==> is_seed(
                            g,
                            words,
                            i as int,
                            r as int,
                            b,
                            #[trigger] cell@[b],
                        ),
                decreases j - m,
            {
                let i_m = chart.cell_start_index(i, m - i);
                let m_j = chart.cell_start_index(m, j - m);
                match self.binaries_for(a as u32) {
                    Some(rules) => {
                        let mut k: usize = 0;
                        while k < rules.len()
                            invariant
                                k <= rules.len(),
                                i < m < j,
                                a < num_nt,
                                num_nt == cell@.len(),
                                num_nt == g.symbols.len(),
                                num_nt <= u32::MAX + 1,
                                g == self@,
                                g.numbers_in_range(),
                                g.binaries.contains_key(a as u32),
                                rules@ == g.binaries[a as u32],
                                n == words.len(),
                                chart.wf(),
                                chart.words() == n,
                                chart.width() == num_nt,
                                is_span(n, i as int, r as int),
                                j == i + r,
                                i_m == chart.cell_start(i as int, m - i),
                                m_j == chart.cell_start(m as int, j - m),
                                i_m + num_nt <= chart.entries().len(),
                                m_j + num_nt <= chart.entries().len(),
                                chart.entries().len() <= usize::MAX,
                                forall|x: u64, y: u64| times.requires((x, y)),
                                is_offered_upto(
                                    g,
                                    times,
                                    chart.entries(),
                                    cell@,
                                    n,
                                    i as int,
                                    r as int,
                                    a as int,
                                    m as int,
                                    k as int,
                                ),
                                forall|b: int|
                                    0 <= b < cell@.len() ==> is_weighed(
                                        g,
                                        times,
                                        words,
                                        chart.entries(),
                                        i as int,
                                        b,
                                        #[trigger] cell@[b],
                                    ),
                                forall|b: int|
                                    0 <= b < cell@.len() ==> is_seed(
                                        g,
                                        words,
                                        i as int,
                                        r as int,
                                        b,
                                        #[trigger] cell@[b],
                                    ),
                            decreases rules.len() - k,
                        {
                            let (b, c, w) = rules[k];
                            proof {
                                assert(g.binaries[a as u32][k as int].0 == b);
                                assert(g.binaries[a as u32][k as int].1 == c);
                                assert(has_binary(g, a as int, b as int, c as int));
                                assert(b < num_nt && c < num_nt);
                                assert(g.binaries[a as u32][k as int].2 == w);
                                assert(i_m + b == flat(n, num_nt as int, i as int, m - i, b as int));
                                assert(m_j + c == flat(
                                    n,
                                    num_nt as int,
                                    m as int,
                                    i + r - m,
                                    c as int,
                                ));
                            }
                            let left = chart.get(i_m + b as usize).weight;
                            let right = chart.get(m_j + c as usize).weight;
                            let ghost cell0 = cell@;
                            {
                                let inner = times(w, left);
                                let candidate = times(inner, right);
                                if candidate > cell[a].weight {
                                    let trace = BacktraceInfo::Binary(
                                        i_m + b as usize,
                                        m_j + c as usize,
                                    );
                                    proof {
                                        assert(i_m + b == flat(
                                            n,
                                            num_nt as int,
                                            i as int,
                                            m - i,
                                            b as int,
                                        ));
                                        assert(m_j + c == flat(
                                            n,
                                            num_nt as int,
                                            m as int,
                                            i + r - m,
                                            c as int,
                                        ));
                                        assert(is_sound_trace(
                                            g,
                                            words,
                                            i as int,
                                            r as int,
                                            a as int,
                                            trace,
                                        ));
                                        lemma_flat_bounds(
                                            n,
                                            num_nt as int,
                                            i as int,
                                            m - i,
                                            b as int,
                                        );
                                        lemma_flat_bounds(
                                            n,
                                            num_nt as int,
                                            m as int,
                                            i + r - m,
                                            c as int,
                                        );
                                        assert(g.binaries[a as u32][k as int].2 == w);
                                        let p = inner;
                                        assert(0 <= k < g.binaries[a as u32].len() && g.binaries[a as u32][k as int].0
                                            == b && g.binaries[a as u32][k as int].1 == c
                                            && times.ensures(
                                            (g.binaries[a as u32][k as int].2, left),
                                            p,
                                        ) && times.ensures((p, right), candidate));
                                        assert(is_binary_product(
                                            g,
                                            times,
                                            a as int,
                                            b as int,
                                            c as int,
                                            left,
                                            right,
                                            candidate,
                                        ));
                                    }
                                    cell[a] = ChartEntry { weight: candidate, back: Some(trace) };
                                }
                                proof {
                                    {
                                        lemma_offered_grows(
                                            g,
                                            times,
                                            chart.entries(),
                                            cell0,
                                            cell@,
                                            n,
                                            i as int,
                                            r as int,
                                            a as int,
                                            m as int,
                                            k as int,
                                        );
                                        assert(times.ensures(
                                            (g.binaries[a as u32][k as int].2, left),
                                            inner,
                                        ) && times.ensures((inner, right), candidate)
                                            && cell@[a as int].weight >= candidate);
                                        assert(is_binary_bound(
                                            g,
                                            times,
                                            chart.entries(),
                                            n,
                                            i as int,
                                            r as int,
                                            a as int,
                                            m as int,
                                            k as int,
                                            cell@[a as int].weight,
                                        ));
                                    }
                                }
                            }
                            k += 1;
                        }
                    },
                    None => {},
                }
                m += 1;
            }
            a += 1;
        }
    }

    /// Closes the cell under the chain rules and prunes it as the mode says.
    fn finish_cell<F: Fn(u64, u64) -> u64>(
        &self,
        words: Ghost<Seq<Seq<char>>>,
        chart: Ghost<Seq<ChartEntry>>,
        start: Ghost<int>,
        span: Ghost<int>,
        cell: &mut Vec<ChartEntry>,
        mode: CykMode,
        times: &F,
    )
        requires
            self.wf(),
            old(cell)@.len() == self@.symbols.len(),
            mode.is_valid(),
            forall|x: u64, y: u64| times.requires((x, y)),
            forall|a: int|
                0 <= a < old(cell)@.len() ==> is_weighed(
                    self@,
                    times,
                    words@,
                    chart@,
                    start@,
                    a,
                    #[trigger] old(cell)@[a],
                ),
            forall|a: int|
                0 <= a < old(cell)@.len() ==> is_seed(
                    self@,
                    words@,
                    start@,
                    span@,
                    a,
                    #[trigger] old(cell)@[a],
                ),
        ensures
            final(cell)@.len() == old(cell)@.len(),
            forall|a: int|
                0 <= a < old(cell)@.len() ==> is_sound_entry(
                    self@,
                    words@,
                    start@,
                    span@,
                    a,
                    #[trigger] final(cell)@[a],
                ),
            forall|a: int|
                0 <= a < old(cell)@.len() ==> is_weighed(
                    self@,
                    times,
                    words@,
                    chart@,
                    start@,
                    a,
                    #[trigger] final(cell)@[a],
                ),
            mode is Base ==> is_chain_closed(self@, times, final(cell)@),
            mode is Base ==> forall|a: int|
                0 <= a < old(cell)@.len() ==> (#[trigger] final(cell)@[a]).weight >= old(
                    cell,
                )@[a].weight,
            exists|closed: Seq<ChartEntry>, log: Seq<QueueItem>| #[trigger]
                is_finished(self@, times, mode, old(cell)@, closed, log, final(cell)@),
    {
        proof {
            self.lemma_wf();
        }
        let ghost g = self@;
        self.unary_closure(cell, times);
        let ghost closed = cell@;
        let ghost log = choose|log: Seq<QueueItem>| #[trigger]
            is_closure_of(g, times, old(cell)@, closed, log);
        proof {
            assert forall|a: int| 0 <= a < closed.len() implies is_weighed(
                g,
                times,
                words@,
                chart@,
                start@,
                a,
                #[trigger] closed[a],
            ) by {
                lemma_closed_entry(g, times, old(cell)@, closed, log, a);
                assert(is_weighed(g, times, words@, chart@, start@, a, old(cell)@[a]));
            }
            assert forall|a: int| 0 <= a < closed.len() implies (#[trigger] closed[a]).weight
                >= old(cell)@[a].weight by {}
        }
        proof {
            assert forall|a: int| 0 <= a < closed.len() implies is_sound_entry(
                g,
                words@,
                start@,
                span@,
                a,
                #[trigger] closed[a],
            ) by {
                lemma_closed_entry(g, times, old(cell)@, closed, log, a);
                assert(is_seed(g, words@, start@, span@, a, old(cell)@[a]));
            }
        }
        match mode {
            CykMode::Base => {},
            CykMode::PruneThreshold(t) => {
                prune_threshold(cell, t, times);
                assert(is_threshold_beam(times, closed, t, cell@));
            },
            CykMode::PruneFixedSize(k) => {
                prune_fixed_size(cell, k);
                assert(is_size_beam(closed, k as int, cell@));
            },
            CykMode::PruneBoth(t, k) => {
                prune_threshold(cell, t, times);
                let ghost between = cell@;
                assert(is_threshold_beam(times, closed, t, between));
                proof {
                    let cutoff = choose|cutoff: u64| between == pruned_below(closed, cutoff);
                    assert forall|a: int| 0 <= a < closed.len() implies #[trigger] between[a]
                        == closed[a] || between[a] == no_entry() by {
                        assert(between[a] == pruned_below(closed, cutoff)[a]);
                    }
                }
                prune_fixed_size(cell, k);
                assert(is_size_beam(between, k as int, cell@));
                assert(is_beam_of(mode, times, closed, cell@));
                proof {
                    let cutoff = choose|cutoff: u64| cell@ == pruned_below(between, cutoff);
                    assert forall|a: int| 0 <= a < closed.len() implies #[trigger] cell@[a]
                        == closed[a] || cell@[a] == no_entry() by {
                        assert(cell@[a] == pruned_below(between, cutoff)[a]);
                        assert(between[a] == closed[a] || between[a] == no_entry());
                    }
                }
            },
        }
        proof {
            assert forall|a: int| 0 <= a < closed.len() implies is_sound_entry(
                g,
                words@,
                start@,
                span@,
                a,
                #[trigger] cell@[a],
            ) by {
                assert(cell@[a] == closed[a] || cell@[a] == no_entry()) by {
                    if mode is PruneThreshold || mode is PruneFixedSize {
                        let cutoff = choose|cutoff: u64| cell@ == pruned_below(closed, cutoff);
                        assert(cell@[a] == pruned_below(closed, cutoff)[a]);
                    }
                }
                assert(is_sound_entry(g, words@, start@, span@, a, closed[a]));
            }
            assert forall|a: int| 0 <= a < closed.len() implies is_weighed(
                g,
                times,
                words@,
                chart@,
                start@,
                a,
                #[trigger] cell@[a],
            ) by {
                assert(cell@[a] == closed[a] || cell@[a] == no_entry());
                assert(is_weighed(g, times, words@, chart@, start@, a, closed[a]));
            }
            assert(is_beam_of(mode, times, closed, cell@));
            assert(is_finished(g, times, mode, old(cell)@, closed, log, cell@));
        }
    }

    /// Puts a finished cell into the chart, which keeps what is known of the chart.
    fn place_cell<F: Fn(u64, u64) -> u64>(
        &self,
        chart: &mut Chart<ChartEntry>,
        sentence: &Sentence<String>,
        i: usize,
        r: usize,
        cell: &Vec<ChartEntry>,
        times: &F,
        full: Ghost<bool>,
        mode: Ghost<CykMode>,
    )
        requires
            is_made_cell(
                self@,
                times,
                sentence@,
                old(chart).entries(),
                mode@,
                i as int,
                r as int,
                cell@,
            ),
            is_decoded_before(
                self@,
                times,
                sentence@,
                old(chart).entries(),
                mode@,
                r as int,
                i as int,
            ),
            full@ ==> is_offered_upto(
                self@,
                times,
                old(chart).entries(),
                cell@,
                sentence@.len() as int,
                i as int,
                r as int,
                self@.symbols.len() as int,
                0,
                0,
            ),
            full@ && r == 1 ==> is_lexical_bound(
                lexical_rules_of(self@, sentence@[i as int]),
                cell@,
                lexical_rules_of(self@, sentence@[i as int]).len() as int,
            ),
            full@ ==> is_chain_closed(self@, times, cell@),
            full@ ==> is_complete_before(
                self@,
                times,
                sentence@,
                old(chart).entries(),
                r as int,
                i as int,
            ),
            forall|a: int|
                0 <= a < cell@.len() ==> is_weighed(
                    self@,
                    times,
                    sentence@,
                    old(chart).entries(),
                    i as int,
                    a,
                    #[trigger] cell@[a],
                ),
            is_weighed_before(self@, times, sentence@, old(chart).entries(), r as int, i as int),
            self.wf(),
            old(chart).wf(),
            old(chart).words() == sentence@.len(),
            old(chart).width() == self@.symbols.len(),
            is_span(sentence@.len() as int, i as int, r as int),
            cell@.len() == self@.symbols.len(),
            forall|a: int|
                0 <= a < cell@.len() ==> is_sound_entry(
                    self@,
                    sentence@,
                    i as int,
                    r as int,
                    a,
                    #[trigger] cell@[a],
                ),
            is_sound_before(self@, sentence@, old(chart).entries(), r as int, i as int),
            traces_in_range(
                old(chart).entries(),
                sentence@.len() as int,
                self@.symbols.len() as int,
            ),
        ensures
            final(chart).wf(),
            final(chart).words() == old(chart).words(),
            final(chart).width() == old(chart).width(),
            is_sound_before(self@, sentence@, final(chart).entries(), r as int, i + 1),
            is_weighed_before(self@, times, sentence@, final(chart).entries(), r as int, i + 1),
            is_decoded_before(
                self@,
                times,
                sentence@,
                final(chart).entries(),
                mode@,
                r as int,
                i + 1,
            ),
            full@ ==> is_complete_before(
                self@,
                times,
                sentence@,
                final(chart).entries(),
                r as int,
                i + 1,
            ),
            traces_in_range(
                final(chart).entries(),
                sentence@.len() as int,
                self@.symbols.len() as int,
            ),
            forall|idx: int|
                0 <= idx < old(chart).entries().len() && !(old(chart).cell_start(i as int, r as int)
                    <= idx < old(chart).cell_start(i as int, r as int) + cell@.len())
                    ==> #[trigger] final(chart).entries()[idx] == old(chart).entries()[idx],
            forall|a: int|
                0 <= a < cell@.len() ==> #[trigger] final(chart).entries()[flat(
                    sentence@.len() as int,
                    self@.symbols.len() as int,
                    i as int,
                    r as int,
                    a,
                )] == cell@[a],
    {
        let ghost g = self@;
        let ghost words = sentence@;
        let ghost n = words.len() as int;
        let ghost num = g.symbols.len() as int;
        let ghost before = chart.entries();
        proof {
            chart.lemma_wf();
            self.lemma_wf();
        }
        let at = chart.cell_start_index(i, r);
        store_cell(chart, at, cell);
        proof {
            chart.lemma_wf();
            let after = chart.entries();
            assert forall|idx: int| 0 <= idx < after.len() implies is_trace_in_range(
                (#[trigger] after[idx]).back,
                after.len() as int,
                n,
                num,
            ) by {
                if at <= idx < at + cell@.len() {
                    lemma_sound_in_range(g, words, i as int, r as int, idx - at, cell@[idx - at]);
                } else {
                    assert(after[idx] == before[idx]);
                }
            }
            assert forall|start: int, span: int, a: int|
                is_span(n, start, span) && 0 <= a < num && (span < r || (span == r && start < i
                    + 1)) implies is_sound_entry(
                g,
                words,
                start,
                span,
                a,
                #[trigger] after[flat(n, num, start, span, a)],
            ) by {
                let idx = flat(n, num, start, span, a);
                lemma_flat_bounds(n, num, start, span, a);
                if span == r && start == i {
                    assert(after[idx] == cell@[a]);
                } else {
                    if at <= idx < at + cell@.len() {
                        lemma_flat_bounds(n, num, i as int, r as int, idx - at);
                        lemma_flat_injective(n, num, start, span, a, i as int, r as int, idx - at);
                    }
                    assert(after[idx] == before[idx]);
                }
            }
            assert forall|a: int| 0 <= a < cell@.len() implies #[trigger] after[flat(
                n,
                num,
                i as int,
                r as int,
                a,
            )] == cell@[a] by {
                lemma_flat_bounds(n, num, i as int, r as int, a);
            }
            assert forall|start: int, span: int, a: int|
                is_span(n, start, span) && 0 <= a < num && (span < r || (span == r && start < i
                    + 1)) implies is_weighed(
                g,
                times,
                words,
                after,
                start,
                a,
                #[trigger] after[flat(n, num, start, span, a)],
            ) by {
                let idx = flat(n, num, start, span, a);
                lemma_flat_bounds(n, num, start, span, a);
                let e = after[idx];
                if span == r && start == i {
                    assert(e == cell@[a]);
                    assert(is_weighed(g, times, words, before, start, a, e));
                    assert(is_sound_entry(g, words, start, span, a, e));
                } else {
                    if at <= idx < at + cell@.len() {
                        lemma_flat_bounds(n, num, i as int, r as int, idx - at);
                        lemma_flat_injective(n, num, start, span, a, i as int, r as int, idx - at);
                    }
                    assert(e == before[idx]);
                    assert(is_weighed(g, times, words, before, start, a, before[idx]));
                    assert(is_sound_entry(g, words, start, span, a, before[idx]));
                }
                match e.back {
                    Some(BacktraceInfo::Binary(left, right)) => {
                        let (m, b, c) = choose|m: int, b: int, c: int|
                            {
                                &&& start < m < start + span
                                &&& 0 <= b < num
                                &&& 0 <= c < num
                                &&& left == #[trigger] flat(n, num, start, m - start, b)
                                &&& right == #[trigger] flat(n, num, m, start + span - m, c)
                                &&& has_binary(g, a, b, c)
                            };
                        lemma_flat_bounds(n, num, start, m - start, b);
                        lemma_flat_bounds(n, num, m, start + span - m, c);
                        if at <= left < at + cell@.len() {
                            lemma_flat_bounds(n, num, i as int, r as int, left - at);
                            lemma_flat_injective(
                                n,
                                num,
                                start,
                                m - start,
                                b,
                                i as int,
                                r as int,
                                left - at,
                            );
                        }
                        if at <= right < at + cell@.len() {
                            lemma_flat_bounds(n, num, i as int, r as int, right - at);
                            lemma_flat_injective(
                                n,
                                num,
                                m,
                                start + span - m,
                                c,
                                i as int,
                                r as int,
                                right - at,
                            );
                        }
                        assert(after[left as int] == before[left as int]);
                        assert(after[right as int] == before[right as int]);
                    },
                    _ => {},
                }
            }
            assert(is_chart_with(before, after, at as int, cell@));
            assert forall|start: int, span: int|
                #![trigger cell_number(n, start, span)]
                is_span(n, start, span) && (span < r || (span == r && start < i + 1))
                    implies is_decoded_cell(g, times, words, after, mode@, start, span) by {
                lemma_decoded_cell_stays(
                    g,
                    times,
                    words,
                    mode@,
                    before,
                    after,
                    cell@,
                    i as int,
                    r as int,
                    start,
                    span,
                );
            }
            if full@ {
                assert forall|start: int, span: int|
                    #![trigger cell_number(n, start, span)]
                    is_span(n, start, span) && (span < r || (span == r && start < i + 1))
                        implies is_complete_cell(g, times, words, after, start, span) by {
                    lemma_complete_cell_stays(
                        g,
                        times,
                        words,
                        before,
                        after,
                        cell@,
                        i as int,
                        r as int,
                        start,
                        span,
                    );
                }
            }
        }
    }

    /// Fills the chart for a sentence: the cells of the words first, then
    /// the cells of longer and longer spans, each closed under the chain rules
    /// and pruned as the mode says. The product of two weights is what
    /// `times` gives for them.
    pub fn fill_chart<F: Fn(u64, u64) -> u64>(
        &self,
        sentence: &Sentence<String>,
        mode: CykMode,
        times: &F,
    ) -> (chart: Chart<ChartEntry>)
        requires
            self.wf(),
            self.chart_fits(sentence@.len() as int),
            mode.is_valid(),
            forall|x: u64, y: u64| times.requires((x, y)),
        ensures
            chart.wf(),
            chart.words() == sentence@.len(),
            chart.width() == self@.symbols.len(),
            is_sound_chart(self@, sentence@, chart.entries()),
            is_weighed_chart(self@, times, sentence@, chart.entries()),
            mode is Base ==> is_complete_chart(self@, times, sentence@, chart.entries()),
            is_decoded_chart(self@, times, sentence@, chart.entries(), mode),
            traces_in_range(chart.entries(), sentence@.len() as int, self@.symbols.len() as int),
    {
        let num_nt = self.num_nonterminals();
        let s_len = sentence.len();
        let ghost g = self@;
        let ghost words = sentence@;
        proof {
            self.lemma_wf();
        }
        let mut chart: Chart<ChartEntry> = Chart::new(s_len, num_nt);
        proof {
            chart.lemma_wf();
            assert forall|idx: int| 0 <= idx < chart.entries().len() implies (
            #[trigger] chart.entries()[idx]) == no_entry() by {}
            assert((chart.entries().len() as int) % (num_nt as int) == 0) by (nonlinear_arith)
                requires
                    chart.entries().len() == triangle(s_len as int) * num_nt,
                    num_nt > 0,
            ;
        }
        let mut i: usize = 0;
        while i < s_len
            invariant
                i <= s_len,
                s_len == words.len(),
                num_nt == g.symbols.len(),
                g == self@,
                words == sentence@,
                self.wf(),
                chart.wf(),
                chart.words() == s_len,
                chart.width() == num_nt,
                mode.is_valid(),
                forall|x: u64, y: u64| times.requires((x, y)),
                is_sound_before(g, words, chart.entries(), 1, i as int),
                is_weighed_before(g, times, words, chart.entries(), 1, i as int),
                mode is Base ==> is_complete_before(g, times, words, chart.entries(), 1, i as int),
                is_decoded_before(g, times, words, chart.entries(), mode, 1, i as int),
                traces_in_range(chart.entries(), s_len as int, num_nt as int),
            decreases s_len - i,
        {
            let mut cell = new_cell(num_nt);
            self.seed_lexical(sentence, i, &mut cell);
            let ghost seeds = cell@;
            proof {
                assert forall|a: int| 0 <= a < cell@.len() implies is_weighed(
                    g,
                    times,
                    words,
                    chart.entries(),
                    i as int,
                    a,
                    #[trigger] cell@[a],
                ) by {
                    assert(has_term_weight(g, words, i as int, a, cell@[a]));
                }
            }
            self.finish_cell(
                Ghost(words),
                Ghost(chart.entries()),
                Ghost(i as int),
                Ghost(1),
                &mut cell,
                mode,
                times,
            );
            proof {
                assert(is_offered_upto(
                    g,
                    times,
                    chart.entries(),
                    cell@,
                    s_len as int,
                    i as int,
                    1,
                    num_nt as int,
                    0,
                    0,
                ));
                assert(is_offered_upto(
                    g,
                    times,
                    chart.entries(),
                    seeds,
                    s_len as int,
                    i as int,
                    1,
                    num_nt as int,
                    0,
                    0,
                ));
                let (closed, log) = choose|closed: Seq<ChartEntry>, log: Seq<QueueItem>| #[trigger]
                    is_finished(g, times, mode, seeds, closed, log, cell@);
                assert(is_cell_history(
                    g,
                    times,
                    words,
                    chart.entries(),
                    mode,
                    i as int,
                    1,
                    seeds,
                    closed,
                    log,
                    cell@,
                ));
                if mode is Base {
                    let rules = lexical_rules_of(g, words[i as int]);
                    assert forall|j: int|
                        0 <= j < rules.len() && (forall|k: int|
                            j < k < rules.len() ==> (#[trigger] rules[k]).0 != rules[j].0)
                            implies cell@[(#[trigger] rules[j]).0 as int].weight >= rules[j].1 by {
                        self.lemma_wf();
                        assert(g.lexicon.contains_key(words[i as int]));
                        assert(g.lexicon[words[i as int]][j].0 < num_nt);
                        assert(seeds[rules[j].0 as int].weight >= rules[j].1);
                    }
                }
            }
            self.place_cell(
                &mut chart,
                sentence,
                i,
                1,
                &cell,
                times,
                Ghost(mode is Base),
                Ghost(mode),
            );
            i += 1;
        }
        proof {
            lemma_successor_fits(s_len as int);
        }
        let mut r: usize = 2;
        while r <= s_len
            invariant
                2 <= r <= s_len + 1 || s_len < 2,
                2 <= r,
                s_len == words.len(),
                num_nt == g.symbols.len(),
                g == self@,
                words == sentence@,
                self.wf(),
                chart.wf(),
                chart.words() == s_len,
                chart.width() == num_nt,
                s_len < usize::MAX,
                mode.is_valid(),
                forall|x: u64, y: u64| times.requires((x, y)),
                is_sound_before(g, words, chart.entries(), r as int, 0),
                is_weighed_before(g, times, words, chart.entries(), r as int, 0),
                mode is Base ==> is_complete_before(g, times, words, chart.entries(), r as int, 0),
                is_decoded_before(g, times, words, chart.entries(), mode, r as int, 0),
                traces_in_range(chart.entries(), s_len as int, num_nt as int),
            decreases s_len + 1 - r,
        {
            let mut i: usize = 0;
            while i <= s_len - r
                invariant
                    2 <= r <= s_len,
                    i <= s_len - r + 1,
                    s_len == words.len(),
                    num_nt == g.symbols.len(),
                    g == self@,
                    words == sentence@,
                    self.wf(),
                    chart.wf(),
                    chart.words() == s_len,
                    chart.width() == num_nt,
                    mode.is_valid(),
                    forall|x: u64, y: u64| times.requires((x, y)),
                    is_sound_before(g, words, chart.entries(), r as int, i as int),
                    is_weighed_before(g, times, words, chart.entries(), r as int, i as int),
                    mode is Base ==> is_complete_before(
                        g,
                        times,
                        words,
                        chart.entries(),
                        r as int,
                        i as int,
                    ),
                    is_decoded_before(g, times, words, chart.entries(), mode, r as int, i as int),
                    traces_in_range(chart.entries(), s_len as int, num_nt as int),
                decreases s_len - r + 1 - i,
            {
                let mut cell = new_cell(num_nt);
                self.seed_binary(&chart, sentence, i, r, &mut cell, times);
                let ghost seeds = cell@;
                self.finish_cell(
                    Ghost(words),
                    Ghost(chart.entries()),
                    Ghost(i as int),
                    Ghost(r as int),
                    &mut cell,
                    mode,
                    times,
                );
                proof {
                    let (closed, log) = choose|closed: Seq<ChartEntry>, log: Seq<QueueItem>| #[trigger]
                        is_finished(g, times, mode, seeds, closed, log, cell@);
                    assert(is_cell_history(
                        g,
                        times,
                        words,
                        chart.entries(),
                        mode,
                        i as int,
                        r as int,
                        seeds,
                        closed,
                        log,
                        cell@,
                    ));
                    if mode is Base {
                        lemma_offered_grows(
                            g,
                            times,
                            chart.entries(),
                            seeds,
                            cell@,
                            s_len as int,
                            i as int,
                            r as int,
                            num_nt as int,
                            0,
                            0,
                        );
                    }
                }
                self.place_cell(
                    &mut chart,
                    sentence,
                    i,
                    r,
                    &cell,
                    times,
                    Ghost(mode is Base),
                    Ghost(mode),
                );
                i += 1;
            }
            r += 1;
        }
        proof {
            chart.lemma_wf();
        }
        chart
    }

    /// The most probable constituent tree of the sentence, if the grammar
    /// derives the sentence from its initial non-terminal: the tree that the
    /// filled chart spells out from the entry of the initial non-terminal for
    /// the whole sentence. The product of two weights is what `times` gives
    /// for them.
    ///
    /// Where the decoder stays among weights whose products do not grow
    /// (see [`is_tame`]), there is a tree exactly when the chart holds an
    /// entry for the initial non-terminal and the whole sentence, and the
    /// tree has the weight of that entry. Where moreover nothing is pruned:
    /// where the rules have weights above 0 and products do not vanish,
    /// there is a tree exactly when the grammar derives the sentence from its
    /// initial non-terminal; and where products grow with their arguments
    /// and no word has two lexical rules with the same left side, the tree
    /// is a heaviest derivation.
    pub fn cyk<F: Fn(u64, u64) -> u64>(
        &self,
        sentence: &Sentence<String>,
        mode: CykMode,
        times: &F,
    ) -> (r: Option<Tree<NodeType<String, String>>>)
        requires
            self.wf(),
            sentence@.len() >= 1,
            self.chart_fits(sentence@.len() as int),
            mode.is_valid(),
            forall|x: u64, y: u64| times.requires((x, y)),
        ensures
            exists|c: Seq<ChartEntry>|
                is_sound_chart(self@, sentence@, c) && is_weighed_chart(
                    self@,
                    times,
                    sentence@,
                    c,
                ) && (mode is Base ==> is_complete_chart(self@, times, sentence@, c))
                    && is_decoded_chart(self@, times, sentence@, c, mode) && #[trigger] best_tree(
                    c,
                    flat(
                        sentence@.len() as int,
                        self@.symbols.len() as int,
                        0,
                        sentence@.len() as int,
                        self@.initial,
                    ),
                    sentence@,
                    self@.symbols,
                    c.len(),
                ) == parse_view(r) && (forall|top: u64| #[trigger]
                    is_tame(self@, times, top) ==> (r is Some <==> c[flat(
                        sentence@.len() as int,
                        self@.symbols.len() as int,
                        0,
                        sentence@.len() as int,
                        self@.initial,
                    )] != no_entry())),
            r matches Some(t) ==> derives(
                self@,
                sentence@,
                t@,
                0,
                sentence@.len() as int,
                self@.initial,
            ),
            r matches Some(t) ==> t@.leaves() == span_leaves(
                sentence@,
                0,
                sentence@.len() as int,
            ),
            self@.lexicon.dom() =~= Set::<Seq<char>>::empty() ==> r is None,
            forall|top: u64|
                mode is Base && has_positive_weights(self@) && is_positive(times) && #[trigger] is_tame(
                    self@,
                    times,
                    top,
                ) ==> (r is Some <==> exists|t: ParseView| #[trigger]
                    derives(self@, sentence@, t, 0, sentence@.len() as int, self@.initial)),
            forall|top: u64| #[trigger]
                is_tame(self@, times, top) ==> (r matches Some(t) ==> exists|w: u64| #[trigger]
                    weighs(
                        self@,
                        times,
                        sentence@,
                        t@,
                        0,
                        sentence@.len() as int,
                        self@.initial,
                        w,
                    )),
            forall|top: u64|
                mode is Base && #[trigger] is_tame(self@, times, top) && is_monotone(times, top)
                    && has_unique_lexical(self@) ==> (r matches Some(t) ==> exists|w: u64| #[trigger]
                    is_heaviest(self@, times, sentence@, t@, w)),
    {
        let chart = self.fill_chart(sentence, mode, times);
        let s_len = sentence.len();
        let ghost g = self@;
        let ghost words = sentence@;
        let ghost n = s_len as int;
        let ghost num = g.symbols.len() as int;
        proof {
            self.lemma_wf();
            chart.lemma_wf();
            lemma_flat_bounds(n, num, 0, n, g.initial);
        }
        let root_cell = chart.cell_start_index(0, s_len) + (self.initial_nonterminal() as usize);
        let r = Self::construct_best_tree(chart.data(), root_cell, sentence, self.lookup().as_slice());
        proof {
            let c = chart.entries();
            assert(best_tree(c, root_cell as int, words, g.symbols, c.len()) == parse_view(r));
            if mode is Base && has_positive_weights(g) && is_positive(times) {
                if exists|t: ParseView| #[trigger] derives(g, words, t, 0, n, g.initial) {
                    let t = choose|t: ParseView| #[trigger] derives(g, words, t, 0, n, g.initial);
                    lemma_derivation_has_entry(g, times, words, c, t, 0, n, g.initial);
                }
            }
            if r is Some {
                assert(c[root_cell as int].back is Some);
            }
            assert forall|top: u64| #[trigger] is_tame(g, times, top) implies (r is Some
                <==> c[root_cell as int] != no_entry()) by {
                if c[root_cell as int] != no_entry() {
                    lemma_chart_entry_has_tree(g, times, words, c, mode, top, 0, n, g.initial);
                }
            }
            assert forall|top: u64| #[trigger] is_tame(g, times, top) && r is Some implies weighs(
                g,
                times,
                words,
                r->0@,
                0,
                n,
                g.initial,
                c[root_cell as int].weight,
            ) by {
                lemma_best_tree_weighs(
                    g,
                    times,
                    words,
                    c,
                    mode,
                    top,
                    0,
                    n,
                    g.initial,
                    c.len(),
                    r->0@,
                );
            }
            assert forall|top: u64|
                mode is Base && #[trigger] is_tame(g, times, top) && is_monotone(times, top)
                    && has_unique_lexical(g) && r is Some implies is_heaviest(
                g,
                times,
                words,
                r->0@,
                c[root_cell as int].weight,
            ) by {
                let w = c[root_cell as int].weight;
                assert forall|other: ParseView, v: u64| #[trigger]
                    weighs(g, times, words, other, 0, n, g.initial, v) implies v <= w by {
                    lemma_entry_bounds_derivation(
                        g,
                        times,
                        words,
                        c,
                        mode,
                        top,
                        other,
                        0,
                        n,
                        g.initial,
                        v,
                    );
                }
            }
            if r is Some {
                lemma_best_tree_derives(g, words, c, 0, n, g.initial, c.len(), r->0@);
                lemma_derivation_needs_words(g, words, r->0@, 0, n, g.initial);
                lemma_derivation_yield(g, words, r->0@, 0, n, g.initial);
            }
        }
        r
    }

    /// Reads the tree off the chart `c` that the traces from the entry at
    /// `c_idx` on spell out. Gives nothing where an entry on the way has no
    /// trace, or where the traces run in a circle.
    pub fn construct_best_tree(
        c: &[ChartEntry],
        c_idx: usize,
        sentence: &Sentence<String>,
        lookup: &[String],
    ) -> (r: Option<Tree<NodeType<String, String>>>)
        requires
            traces_in_range(c@, sentence@.len() as int, lookup@.len() as int),
            c_idx < c@.len(),
        ensures
            match r {
                Some(t) => best_tree(c@, c_idx as int, sentence@, label_views(lookup@), c@.len())
                    == Some(t@),
                None => best_tree(c@, c_idx as int, sentence@, label_views(lookup@), c@.len())
                    is None,
            },
    {
        build_tree(c, c_idx, sentence, lookup, c.len())
    }
}

} // verus!
