//! How the cells of the decoder's chart come to be, whatever the mode:
//! each is started from the rules and the cells of the shorter spans, closed
//! under the chain rules, and cut by the beam of the mode.

use vstd::prelude::*;
use crate::grammar::cell::{
    is_kth_greatest, is_threshold_cutoff, no_entry, pruned_below, weights, BacktraceInfo,
    ChartEntry, CykMode,
};
use crate::grammar::chart::{cell_number, is_span, lemma_shorter_span_first, triangle};
use crate::grammar::closure::{
    has_chains_upto, is_chain_closed, is_closure_of, is_descending, is_install, is_last_at,
    is_last_install, is_rule_product, is_shrinking, is_tame_closure, lemma_closure_entry,
    lemma_descending_log_short, lemma_log_upto,
};
use crate::grammar::complete::{
    is_binary_bound, is_candidate, is_lexical_bound, is_offered_upto, is_weighed, lexical_rules_of,
};
use crate::grammar::derivation::{
    best_tree, flat, has_binary, is_seed, is_sound_chart, is_sound_entry, lemma_flat_bounds,
    lemma_flat_injective,
};
use crate::grammar::parse::GrammarView;
use crate::grammar::queue::QueueItem;

verus! {

/// Whether `cell` is what the threshold beam leaves of `closed`: the cell
/// without the entries below the product of its greatest weight and `threshold`.
pub open spec fn is_threshold_beam<F: Fn(u64, u64) -> u64>(
    times: &F,
    closed: Seq<ChartEntry>,
    threshold: u64,
    cell: Seq<ChartEntry>,
) -> bool {
    exists|m: u64, cutoff: u64| #[trigger]
        is_threshold_cutoff(times, closed, threshold, m, cutoff) && cell == pruned_below(
            closed,
            cutoff,
        )
}

/// Whether `cell` is what the fixed-size beam leaves of `closed`: the cell
/// without the entries below its `k`-th greatest weight, or below its least
/// where it has fewer than `k` entries.
pub open spec fn is_size_beam(closed: Seq<ChartEntry>, k: int, cell: Seq<ChartEntry>) -> bool {
    exists|cutoff: u64|
        {
            &&& is_kth_greatest(
                weights(closed),
                if k <= closed.len() {
                    k
                } else {
                    closed.len() as int
                },
                cutoff,
            )
            &&& #[trigger] pruned_below(closed, cutoff) == cell
        }
}

/// Whether `cell` is what the mode leaves of the closed cell `closed`.
pub open spec fn is_beam_of<F: Fn(u64, u64) -> u64>(
    mode: CykMode,
    times: &F,
    closed: Seq<ChartEntry>,
    cell: Seq<ChartEntry>,
) -> bool {
    match mode {
        CykMode::Base => cell == closed,
        CykMode::PruneThreshold(t) => is_threshold_beam(times, closed, t, cell),
        CykMode::PruneFixedSize(k) => is_size_beam(closed, k as int, cell),
        CykMode::PruneBoth(t, k) => exists|between: Seq<ChartEntry>| #[trigger]
            is_threshold_beam(times, closed, t, between) && is_size_beam(between, k as int, cell),
    }
}

/// Whether `cell` is what closing and pruning make of the cell `seeded`:
/// `closed` is its closure under the chain rules, as `log` tells it, and
/// `cell` is what the mode leaves of `closed`.
pub open spec fn is_finished<F: Fn(u64, u64) -> u64>(
    g: GrammarView,
    times: &F,
    mode: CykMode,
    seeded: Seq<ChartEntry>,
    closed: Seq<ChartEntry>,
    log: Seq<QueueItem>,
    cell: Seq<ChartEntry>,
) -> bool {
    &&& is_closure_of(g, times, seeded, closed, log)
    &&& is_chain_closed(g, times, closed)
    &&& forall|a: int| 0 <= a < closed.len() ==> (#[trigger] closed[a]).weight >= seeded[a].weight
    &&& is_beam_of(mode, times, closed, cell)
}

/// Whether the decoder makes `cell` for the span `(start, span)` over the
/// chart `c`, by way of `seeded`, `closed` and `log`.
///
/// - `seeded` is what the rules give: each entry has the trace of a lexical
///   rule for the word, or of a rule with two non-terminals and two entries
///   of `c` that make up the span, with their product as its weight; and no
///   such rule gives more than the entry holds.
/// - `closed` is the closure of `seeded`, and `cell` what the mode leaves
///   of it: see [`is_finished`].
pub open spec fn is_cell_history<F: Fn(u64, u64) -> u64>(
    g: GrammarView,
    times: &F,
    words: Seq<Seq<char>>,
    c: Seq<ChartEntry>,
    mode: CykMode,
    start: int,
    span: int,
    seeded: Seq<ChartEntry>,
    closed: Seq<ChartEntry>,
    log: Seq<QueueItem>,
    cell: Seq<ChartEntry>,
) -> bool {
    let n = words.len() as int;
    let num = g.symbols.len() as int;
    &&& seeded.len() == num
    &&& forall|a: int| 0 <= a < num ==> is_seed(g, words, start, span, a, #[trigger] seeded[a])
    &&& forall|a: int| 0 <= a < num ==> is_weighed(g, times, words, c, start, a, #[trigger] seeded[a])
    &&& is_offered_upto(g, times, c, seeded, n, start, span, num, 0, 0)
    &&& span == 1 ==> is_lexical_bound(
        lexical_rules_of(g, words[start]),
        seeded,
        lexical_rules_of(g, words[start]).len() as int,
    )
    &&& is_finished(g, times, mode, seeded, closed, log, cell)
}

/// Whether the decoder makes `cell` for the span `(start, span)` over the chart `c`.
pub open spec fn is_made_cell<F: Fn(u64, u64) -> u64>(
    g: GrammarView,
    times: &F,
    words: Seq<Seq<char>>,
    c: Seq<ChartEntry>,
    mode: CykMode,
    start: int,
    span: int,
    cell: Seq<ChartEntry>,
) -> bool {
    exists|seeded: Seq<ChartEntry>, closed: Seq<ChartEntry>, log: Seq<QueueItem>| #[trigger]
        is_cell_history(g, times, words, c, mode, start, span, seeded, closed, log, cell)
}

/// Whether the cell of the span `(start, span)` in the chart `c` is what the decoder makes.
pub open spec fn is_decoded_cell<F: Fn(u64, u64) -> u64>(
    g: GrammarView,
    times: &F,
    words: Seq<Seq<char>>,
    c: Seq<ChartEntry>,
    mode: CykMode,
    start: int,
    span: int,
) -> bool {
    let n = words.len() as int;
    let num = g.symbols.len() as int;
    let at = cell_number(n, start, span) * num;
    is_made_cell(g, times, words, c, mode, start, span, c.subrange(at, at + num))
}

/// The cells of the spans that come before the span `(start_now, span_now)`
/// are what the decoder makes.
pub open spec fn is_decoded_before<F: Fn(u64, u64) -> u64>(
    g: GrammarView,
    times: &F,
    words: Seq<Seq<char>>,
    c: Seq<ChartEntry>,
    mode: CykMode,
    span_now: int,
    start_now: int,
) -> bool {
    let n = words.len() as int;
    forall|start: int, span: int|
        #![trigger cell_number(n, start, span)]
        is_span(n, start, span) && (span < span_now || (span == span_now && start < start_now))
            ==> is_decoded_cell(g, times, words, c, mode, start, span)
}

/// Whether every cell of the chart is what the decoder makes: started from
/// the rules and the cells of the shorter spans, closed under the chain
/// rules, and cut by the beam of the mode.
pub open spec fn is_decoded_chart<F: Fn(u64, u64) -> u64>(
    g: GrammarView,
    times: &F,
    words: Seq<Seq<char>>,
    c: Seq<ChartEntry>,
    mode: CykMode,
) -> bool {
    is_decoded_before(g, times, words, c, mode, words.len() as int + 1, 0)
}

/// Whether `after` is the chart `before` with `cell` from place `at` on.
pub open spec fn is_chart_with(
    before: Seq<ChartEntry>,
    after: Seq<ChartEntry>,
    at: int,
    cell: Seq<ChartEntry>,
) -> bool {
    &&& after.len() == before.len()
    &&& forall|idx: int|
        0 <= idx < before.len() ==> #[trigger] after[idx] == (if at <= idx < at + cell.len() {
            cell[idx - at]
        } else {
            before[idx]
        })
}

/// The entries of the parts of the span `(start, span)` are not those of
/// the cell of the span `(i, r)` where that span does not come before it.
proof fn lemma_part_stays(
    n: int,
    num: int,
    before: Seq<ChartEntry>,
    after: Seq<ChartEntry>,
    put: Seq<ChartEntry>,
    i: int,
    r: int,
    start: int,
    span: int,
    b: int,
)
    requires
        before.len() == triangle(n) * num,
        put.len() == num,
        is_span(n, i, r),
        is_span(n, start, span),
        span < r,
        0 <= b < num,
        is_chart_with(before, after, cell_number(n, i, r) * num, put),
    ensures
        0 <= flat(n, num, start, span, b) < before.len(),
        after[flat(n, num, start, span, b)] == before[flat(n, num, start, span, b)],
{
    let at = cell_number(n, i, r) * num;
    let idx = flat(n, num, start, span, b);
    lemma_flat_bounds(n, num, start, span, b);
    lemma_flat_bounds(n, num, i, r, 0);
    if at <= idx < at + num {
        lemma_flat_bounds(n, num, i, r, idx - at);
        lemma_flat_injective(n, num, start, span, b, i, r, idx - at);
    }
}

/// What makes a cell of a span goes on making it when the cell of a span
/// that does not come before it is put into the chart.
pub proof fn lemma_history_stays<F: Fn(u64, u64) -> u64>(
    g: GrammarView,
    times: &F,
    words: Seq<Seq<char>>,
    mode: CykMode,
    before: Seq<ChartEntry>,
    after: Seq<ChartEntry>,
    put: Seq<ChartEntry>,
    i: int,
    r: int,
    start: int,
    span: int,
    seeded: Seq<ChartEntry>,
    closed: Seq<ChartEntry>,
    log: Seq<QueueItem>,
    cell: Seq<ChartEntry>,
)
    requires
        g.numbers_in_range(),
        before.len() == triangle(words.len() as int) * g.symbols.len(),
        put.len() == g.symbols.len(),
        is_span(words.len() as int, i, r),
        is_span(words.len() as int, start, span),
        span <= r,
        is_chart_with(before, after, cell_number(words.len() as int, i, r) * g.symbols.len(), put),
        is_cell_history(g, times, words, before, mode, start, span, seeded, closed, log, cell),
    ensures
        is_cell_history(g, times, words, after, mode, start, span, seeded, closed, log, cell),
{
    let n = words.len() as int;
    let num = g.symbols.len() as int;
    assert forall|a: int| 0 <= a < num implies is_weighed(
        g,
        times,
        words,
        after,
        start,
        a,
        #[trigger] seeded[a],
    ) by {
        let e = seeded[a];
        assert(is_weighed(g, times, words, before, start, a, e));
        assert(is_seed(g, words, start, span, a, e));
        match e.back {
            Some(BacktraceInfo::Binary(left, right)) => {
                let (m, b, c) = choose|m: int, b: int, c: int|
                    {
                        &&& start < m < start + span
                        &&& 0 <= b < num
                        &&& 0 <= c < num
                        &&& left == #[trigger] flat(n, num, start, m - start, b)
                        &&& right == #[trigger] flat(n, num, m, start + span - m, c)
                        &&& has_binary(g, a, b, c)
                    };
                lemma_part_stays(n, num, before, after, put, i, r, start, m - start, b);
                lemma_part_stays(n, num, before, after, put, i, r, m, start + span - m, c);
            },
            _ => {},
        }
    }
    assert forall|a: int, m: int, j: int|
        is_candidate(g, num, start, span, a, m, j) implies #[trigger] is_binary_bound(
        g,
        times,
        after,
        n,
        start,
        span,
        a,
        m,
        j,
        seeded[a].weight,
    ) by {
        let rule = g.binaries[a as u32][j];
        assert(rule.0 < num && rule.1 < num);
        lemma_part_stays(n, num, before, after, put, i, r, start, m - start, rule.0 as int);
        lemma_part_stays(n, num, before, after, put, i, r, m, start + span - m, rule.1 as int);
        assert(is_binary_bound(g, times, before, n, start, span, a, m, j, seeded[a].weight));
    }
}

/// Putting the cell that the decoder makes for the span `(i, r)` into a
/// chart leaves the cells that come before it what the decoder makes, and
/// makes the cell of the span so.
pub proof fn lemma_decoded_cell_stays<F: Fn(u64, u64) -> u64>(
    g: GrammarView,
    times: &F,
    words: Seq<Seq<char>>,
    mode: CykMode,
    before: Seq<ChartEntry>,
    after: Seq<ChartEntry>,
    put: Seq<ChartEntry>,
    i: int,
    r: int,
    start: int,
    span: int,
)
    requires
        g.numbers_in_range(),
        before.len() == triangle(words.len() as int) * g.symbols.len(),
        put.len() == g.symbols.len(),
        is_span(words.len() as int, i, r),
        is_span(words.len() as int, start, span),
        span < r || (span == r && start <= i),
        is_chart_with(before, after, cell_number(words.len() as int, i, r) * g.symbols.len(), put),
        is_made_cell(g, times, words, before, mode, i, r, put),
        is_decoded_before(g, times, words, before, mode, r, i),
    ensures
        is_decoded_cell(g, times, words, after, mode, start, span),
{
    let n = words.len() as int;
    let num = g.symbols.len() as int;
    let at = cell_number(n, i, r) * num;
    let here = cell_number(n, start, span) * num;
    lemma_flat_bounds(n, num, i, r, 0);
    lemma_flat_bounds(n, num, start, span, 0);
    let mine = if span == r && start == i {
        put
    } else {
        before.subrange(here, here + num)
    };
    assert(after.subrange(here, here + num) =~= mine) by {
        assert forall|a: int| 0 <= a < num implies after.subrange(here, here + num)[a]
            == mine[a] by {
            lemma_flat_bounds(n, num, start, span, a);
            if !(span == r && start == i) {
                let idx = here + a;
                if at <= idx < at + num {
                    lemma_flat_bounds(n, num, i, r, idx - at);
                    lemma_flat_injective(n, num, start, span, a, i, r, idx - at);
                }
            }
        }
    }
    if !(span == r && start == i) {
        assert(is_decoded_cell(g, times, words, before, mode, start, span)) by {
            let number = cell_number(n, start, span);
        }
    }
    assert(is_made_cell(g, times, words, before, mode, start, span, mine));
    let (seeded, closed, log) = choose|
        seeded: Seq<ChartEntry>,
        closed: Seq<ChartEntry>,
        log: Seq<QueueItem>,
    | #[trigger]
        is_cell_history(g, times, words, before, mode, start, span, seeded, closed, log, mine);
    lemma_history_stays(
        g,
        times,
        words,
        mode,
        before,
        after,
        put,
        i,
        r,
        start,
        span,
        seeded,
        closed,
        log,
        mine,
    );
}

/// The threshold beam keeps an entry as it is or removes it, and it keeps
/// every entry that is at least as heavy as one that it keeps.
proof fn lemma_threshold_beam_keeps<F: Fn(u64, u64) -> u64>(
    times: &F,
    closed: Seq<ChartEntry>,
    threshold: u64,
    cell: Seq<ChartEntry>,
    a: int,
    b: int,
)
    requires
        is_threshold_beam(times, closed, threshold, cell),
        0 <= a < closed.len(),
        0 <= b < closed.len(),
    ensures
        cell.len() == closed.len(),
        cell[a] == closed[a] || cell[a] == no_entry(),
        cell[a] != no_entry() && closed[b].weight >= closed[a].weight ==> cell[b] == closed[b],
{
    let (m, cutoff) = choose|m: u64, cutoff: u64| #[trigger]
        is_threshold_cutoff(times, closed, threshold, m, cutoff) && cell == pruned_below(
            closed,
            cutoff,
        );
}

/// The fixed-size beam keeps an entry as it is or removes it, and it keeps
/// every entry that is at least as heavy as one that it keeps.
proof fn lemma_size_beam_keeps(
    closed: Seq<ChartEntry>,
    k: int,
    cell: Seq<ChartEntry>,
    a: int,
    b: int,
)
    requires
        is_size_beam(closed, k, cell),
        0 <= a < closed.len(),
        0 <= b < closed.len(),
    ensures
        cell.len() == closed.len(),
        cell[a] == closed[a] || cell[a] == no_entry(),
        cell[a] != no_entry() && closed[b].weight >= closed[a].weight ==> cell[b] == closed[b],
{
    let cutoff = choose|cutoff: u64|
        {
            &&& is_kth_greatest(
                weights(closed),
                if k <= closed.len() {
                    k
                } else {
                    closed.len() as int
                },
                cutoff,
            )
            &&& #[trigger] pruned_below(closed, cutoff) == cell
        };
}

/// A beam keeps an entry as it is or removes it, and it keeps every entry
/// that is at least as heavy as one that it keeps.
pub proof fn lemma_beam_keeps<F: Fn(u64, u64) -> u64>(
    mode: CykMode,
    times: &F,
    closed: Seq<ChartEntry>,
    cell: Seq<ChartEntry>,
    a: int,
    b: int,
)
    requires
        is_beam_of(mode, times, closed, cell),
        0 <= a < closed.len(),
        0 <= b < closed.len(),
    ensures
        cell.len() == closed.len(),
        cell[a] == closed[a] || cell[a] == no_entry(),
        cell[a] != no_entry() && closed[b].weight >= closed[a].weight ==> cell[b] == closed[b],
{
    match mode {
        CykMode::Base => {},
        CykMode::PruneThreshold(t) => {
            lemma_threshold_beam_keeps(times, closed, t, cell, a, b);
        },
        CykMode::PruneFixedSize(k) => {
            lemma_size_beam_keeps(closed, k as int, cell, a, b);
        },
        CykMode::PruneBoth(t, k) => {
            let between = choose|between: Seq<ChartEntry>| #[trigger]
                is_threshold_beam(times, closed, t, between) && is_size_beam(
                    between,
                    k as int,
                    cell,
                );
            lemma_threshold_beam_keeps(times, closed, t, between, a, b);
            lemma_size_beam_keeps(between, k as int, cell, a, b);
        },
    }
}

/// What a chain entry of a cell that the decoder makes rests on, where
/// the closure put the entries in heaviest first: its trace names a non-terminal of the same cell
/// whose entry is at least as heavy and was put in before it, and its weight
/// is the product of the weight of a chain rule and the weight of that
/// entry. So the chain traces of a cell do not run in a circle, and none
/// points to a non-terminal without an entry.
pub proof fn lemma_made_chain_entry<F: Fn(u64, u64) -> u64>(
    g: GrammarView,
    times: &F,
    words: Seq<Seq<char>>,
    c: Seq<ChartEntry>,
    mode: CykMode,
    start: int,
    span: int,
    seeded: Seq<ChartEntry>,
    closed: Seq<ChartEntry>,
    log: Seq<QueueItem>,
    cell: Seq<ChartEntry>,
    a: int,
) -> (r: (int, int))
    requires
        is_cell_history(g, times, words, c, mode, start, span, seeded, closed, log, cell),
        is_descending(log),
        0 <= a < cell.len(),
        cell[a] != no_entry(),
        cell[a].back is Some,
        cell[a].back->0 is Chain,
    ensures
        cell.len() == closed.len(),
        cell.len() == g.symbols.len(),
        0 <= r.0 < r.1 < log.len(),
        log[r.0].nt < cell.len(),
        cell[a].back == Some(BacktraceInfo::Chain(log[r.0].nt)),
        is_last_at(log, a, cell[a], r.1),
        is_last_at(log, log[r.0].nt as int, cell[log[r.0].nt as int], r.0),
        cell[log[r.0].nt as int].weight >= cell[a].weight > 0,
        is_rule_product(
            g,
            times,
            a,
            log[r.0].nt as int,
            cell[log[r.0].nt as int].weight,
            cell[a].weight,
        ),
{
    lemma_beam_keeps(mode, times, closed, cell, a, a);
    assert(is_seed(g, words, start, span, a, seeded[a]));
    let r = lemma_closure_entry(g, times, seeded, closed, log, a);
    lemma_beam_keeps(mode, times, closed, cell, a, log[r.0].nt as int);
    r
}

/// Whether the decoder stays among the weights up to `top`: no rule has
/// a greater weight, and the products of such weights do not grow. This is
/// so of probabilities and their products, with the weight of 1 as `top`.
pub open spec fn is_tame<F: Fn(u64, u64) -> u64>(g: GrammarView, times: &F, top: u64) -> bool {
    &&& is_shrinking(times, top)
    &&& has_chains_upto(g, top)
    &&& forall|w: Seq<char>, j: int|
        g.lexicon.contains_key(w) && 0 <= j < g.lexicon[w].len() ==> (#[trigger] g.lexicon[w][j]).1
            <= top
    &&& forall|a: u32, j: int|
        g.binaries.contains_key(a) && 0 <= j < g.binaries[a].len() ==> (
        #[trigger] g.binaries[a][j]).2 <= top
}

/// Where the decoder stays among the weights up to `top`, so does what
/// makes the cell of a span: the cell starts with such weights, its closure
/// puts the entries in heaviest first, and no entry of the cell is heavier
/// than `top`.
pub proof fn lemma_tame_history<F: Fn(u64, u64) -> u64>(
    g: GrammarView,
    times: &F,
    words: Seq<Seq<char>>,
    c: Seq<ChartEntry>,
    mode: CykMode,
    top: u64,
    start: int,
    span: int,
    seeded: Seq<ChartEntry>,
    closed: Seq<ChartEntry>,
    log: Seq<QueueItem>,
)
    requires
        is_sound_chart(g, words, c),
        is_decoded_chart(g, times, words, c, mode),
        is_tame(g, times, top),
        is_span(words.len() as int, start, span),
        is_cell_history(
            g,
            times,
            words,
            c,
            mode,
            start,
            span,
            seeded,
            closed,
            log,
            c.subrange(
                cell_number(words.len() as int, start, span) * g.symbols.len(),
                cell_number(words.len() as int, start, span) * g.symbols.len() + g.symbols.len(),
            ),
        ),
    ensures
        is_tame_closure(g, times, seeded, top),
        is_descending(log),
        forall|a: int|
            0 <= a < g.symbols.len() ==> (#[trigger] c[flat(
                words.len() as int,
                g.symbols.len() as int,
                start,
                span,
                a,
            )]).weight <= top,
    decreases span, 0nat,
{
    let n = words.len() as int;
    let num = g.symbols.len() as int;
    let at = cell_number(n, start, span) * num;
    let cell = c.subrange(at, at + num);
    assert forall|a: int| 0 <= a < seeded.len() implies (#[trigger] seeded[a]).weight <= top by {
        let e = seeded[a];
        assert(is_seed(g, words, start, span, a, e));
        assert(is_weighed(g, times, words, c, start, a, e));
        match e.back {
            Some(BacktraceInfo::Binary(left, right)) => {
                let (m, b, d) = choose|m: int, b: int, d: int|
                    {
                        &&& start < m < start + span
                        &&& 0 <= b < num
                        &&& 0 <= d < num
                        &&& left == #[trigger] flat(n, num, start, m - start, b)
                        &&& right == #[trigger] flat(n, num, m, start + span - m, d)
                        &&& has_binary(g, a, b, d)
                    };
                lemma_entry_upto(g, times, words, c, mode, top, start, m - start, b);
                lemma_entry_upto(g, times, words, c, mode, top, m, start + span - m, d);
            },
            _ => {},
        }
    }
    assert(is_tame_closure(g, times, seeded, top));
    assert forall|a: int| 0 <= a < num implies (#[trigger] c[flat(n, num, start, span, a)]).weight
        <= top by {
        lemma_flat_bounds(n, num, start, span, a);
        assert(cell[a] == c[flat(n, num, start, span, a)]);
        lemma_beam_keeps(mode, times, closed, cell, a, a);
        assert(is_last_install(log, a, closed[a]));
        if closed[a] != no_entry() {
            let k = choose|k: int| #[trigger] is_last_at(log, a, closed[a], k);
            lemma_log_upto(g, times, seeded, log, top, k);
        }
    }
}

/// Where the decoder stays among the weights up to `top`, no entry of the
/// chart is heavier than `top`.
pub proof fn lemma_entry_upto<F: Fn(u64, u64) -> u64>(
    g: GrammarView,
    times: &F,
    words: Seq<Seq<char>>,
    c: Seq<ChartEntry>,
    mode: CykMode,
    top: u64,
    start: int,
    span: int,
    a: int,
)
    requires
        is_sound_chart(g, words, c),
        is_decoded_chart(g, times, words, c, mode),
        is_tame(g, times, top),
        is_span(words.len() as int, start, span),
        0 <= a < g.symbols.len(),
    ensures
        c[flat(words.len() as int, g.symbols.len() as int, start, span, a)].weight <= top,
    decreases span, 1nat,
{
    let n = words.len() as int;
    let num = g.symbols.len() as int;
    let at = cell_number(n, start, span) * num;
    let cell = c.subrange(at, at + num);
    assert(is_decoded_cell(g, times, words, c, mode, start, span)) by {
        let number = cell_number(n, start, span);
    }
    let (seeded, closed, log) = choose|
        seeded: Seq<ChartEntry>,
        closed: Seq<ChartEntry>,
        log: Seq<QueueItem>,
    | #[trigger] is_cell_history(g, times, words, c, mode, start, span, seeded, closed, log, cell);
    lemma_tame_history(g, times, words, c, mode, top, start, span, seeded, closed, log);
}

/// The tree of an entry of a cell that the decoder makes among the
/// weights up to `top`: the traces from the entry on end in words within as many
/// steps as there are entries before it, counted cell by cell and within a
/// cell in the order in which the closure put them in.
proof fn lemma_entry_spells_tree<F: Fn(u64, u64) -> u64>(
    g: GrammarView,
    times: &F,
    words: Seq<Seq<char>>,
    c: Seq<ChartEntry>,
    mode: CykMode,
    top: u64,
    start: int,
    span: int,
    a: int,
    seeded: Seq<ChartEntry>,
    closed: Seq<ChartEntry>,
    log: Seq<QueueItem>,
    rank: int,
    fuel: nat,
)
    requires
        g.symbols.len() > 0,
        is_sound_chart(g, words, c),
        is_decoded_chart(g, times, words, c, mode),
        is_tame(g, times, top),
        is_descending(log),
        is_span(words.len() as int, start, span),
        0 <= a < g.symbols.len(),
        is_cell_history(
            g,
            times,
            words,
            c,
            mode,
            start,
            span,
            seeded,
            closed,
            log,
            c.subrange(
                cell_number(words.len() as int, start, span) * g.symbols.len(),
                cell_number(words.len() as int, start, span) * g.symbols.len() + g.symbols.len(),
            ),
        ),
        c[flat(words.len() as int, g.symbols.len() as int, start, span, a)] != no_entry(),
        is_last_at(
            log,
            a,
            c[flat(words.len() as int, g.symbols.len() as int, start, span, a)],
            rank,
        ),
        fuel > cell_number(words.len() as int, start, span) * g.symbols.len() + rank,
    ensures
        best_tree(
            c,
            flat(words.len() as int, g.symbols.len() as int, start, span, a),
            words,
            g.symbols,
            fuel,
        ) is Some,
    decreases span, rank,
{
    let n = words.len() as int;
    let num = g.symbols.len() as int;
    let at = cell_number(n, start, span) * num;
    let idx = flat(n, num, start, span, a);
    let cell = c.subrange(at, at + num);
    let e = c[idx];
    lemma_flat_bounds(n, num, start, span, a);
    assert(cell[a] == e);
    assert(is_sound_entry(g, words, start, span, a, e));
    lemma_beam_keeps(mode, times, closed, cell, a, a);
    match e.back->0 {
        BacktraceInfo::Term(t) => {},
        BacktraceInfo::Chain(b) => {
            let r = lemma_made_chain_entry(
                g,
                times,
                words,
                c,
                mode,
                start,
                span,
                seeded,
                closed,
                log,
                cell,
                a,
            );
            assert(r.1 == rank);
            assert(b == log[r.0].nt);
            lemma_flat_bounds(n, num, start, span, b as int);
            assert(cell[b as int] == c[flat(n, num, start, span, b as int)]);
            assert(idx - idx % num + b == flat(n, num, start, span, b as int));
            lemma_entry_spells_tree(
                g,
                times,
                words,
                c,
                mode,
                top,
                start,
                span,
                b as int,
                seeded,
                closed,
                log,
                r.0,
                (fuel - 1) as nat,
            );
        },
        BacktraceInfo::Binary(left, right) => {
            let (m, b, d) = choose|m: int, b: int, d: int|
                {
                    &&& start < m < start + span
                    &&& 0 <= b < num
                    &&& 0 <= d < num
                    &&& left == #[trigger] flat(n, num, start, m - start, b)
                    &&& right == #[trigger] flat(n, num, m, start + span - m, d)
                    &&& has_binary(g, a, b, d)
                };
            assert(is_install(g, times, seeded, log, rank));
            assert(e == seeded[a]);
            assert(is_weighed(g, times, words, c, start, a, seeded[a]));
            lemma_entry_upto(g, times, words, c, mode, top, start, m - start, b);
            lemma_entry_upto(g, times, words, c, mode, top, m, start + span - m, d);
            assert(c[left as int].weight > 0 && c[right as int].weight > 0);
            lemma_part_spells_tree(
                g,
                times,
                words,
                c,
                mode,
                top,
                start,
                span,
                rank,
                start,
                m - start,
                b,
                fuel,
            );
            lemma_part_spells_tree(
                g,
                times,
                words,
                c,
                mode,
                top,
                start,
                span,
                rank,
                m,
                start + span - m,
                d,
                fuel,
            );
        },
    }
}

/// The tree of an entry of a span that is a part of the span `(start, span)`.
proof fn lemma_part_spells_tree<F: Fn(u64, u64) -> u64>(
    g: GrammarView,
    times: &F,
    words: Seq<Seq<char>>,
    c: Seq<ChartEntry>,
    mode: CykMode,
    top: u64,
    start: int,
    span: int,
    rank: int,
    from: int,
    len: int,
    b: int,
    fuel: nat,
)
    requires
        g.symbols.len() > 0,
        is_sound_chart(g, words, c),
        is_decoded_chart(g, times, words, c, mode),
        is_tame(g, times, top),
        is_span(words.len() as int, start, span),
        is_span(words.len() as int, from, len),
        len < span,
        0 <= rank,
        0 <= b < g.symbols.len(),
        c[flat(words.len() as int, g.symbols.len() as int, from, len, b)].weight > 0,
        fuel > cell_number(words.len() as int, start, span) * g.symbols.len() + rank,
    ensures
        fuel > 0,
        best_tree(
            c,
            flat(words.len() as int, g.symbols.len() as int, from, len, b),
            words,
            g.symbols,
            (fuel - 1) as nat,
        ) is Some,
    decreases span, rank, 0nat,
{
    let n = words.len() as int;
    let num = g.symbols.len() as int;
    let at = cell_number(n, from, len) * num;
    let cell = c.subrange(at, at + num);
    lemma_flat_bounds(n, num, from, len, b);
    lemma_flat_bounds(n, num, start, span, 0);
    lemma_shorter_span_first(n, from, len, start, span);
    assert(is_decoded_cell(g, times, words, c, mode, from, len)) by {
        let number = cell_number(n, from, len);
    }
    let (seeded, closed, log) = choose|
        seeded: Seq<ChartEntry>,
        closed: Seq<ChartEntry>,
        log: Seq<QueueItem>,
    | #[trigger] is_cell_history(g, times, words, c, mode, from, len, seeded, closed, log, cell);
    assert(cell[b] == c[flat(n, num, from, len, b)]);
    lemma_beam_keeps(mode, times, closed, cell, b, b);
    assert(is_last_install(log, b, closed[b]));
    let k = choose|k: int| #[trigger] is_last_at(log, b, closed[b], k);
    lemma_tame_history(g, times, words, c, mode, top, from, len, seeded, closed, log);
    lemma_descending_log_short(g, times, seeded, log);
    let here = cell_number(n, start, span);
    let there = cell_number(n, from, len);
    assert(there * num + num <= here * num) by (nonlinear_arith)
        requires
            there < here,
            num > 0,
    ;
    lemma_entry_spells_tree(
        g,
        times,
        words,
        c,
        mode,
        top,
        from,
        len,
        b,
        seeded,
        closed,
        log,
        k,
        (fuel - 1) as nat,
    );
}

/// Where the decoder stays among the weights up to `top`, every entry of
/// the chart that it fills spells out a tree: the traces from it on name entries that are
/// there, and end in words.
pub proof fn lemma_chart_entry_has_tree<F: Fn(u64, u64) -> u64>(
    g: GrammarView,
    times: &F,
    words: Seq<Seq<char>>,
    c: Seq<ChartEntry>,
    mode: CykMode,
    top: u64,
    start: int,
    span: int,
    a: int,
)
    requires
        is_sound_chart(g, words, c),
        is_decoded_chart(g, times, words, c, mode),
        is_tame(g, times, top),
        is_span(words.len() as int, start, span),
        0 <= a < g.symbols.len(),
        c[flat(words.len() as int, g.symbols.len() as int, start, span, a)] != no_entry(),
    ensures
        best_tree(
            c,
            flat(words.len() as int, g.symbols.len() as int, start, span, a),
            words,
            g.symbols,
            c.len(),
        ) is Some,
{
    let n = words.len() as int;
    let num = g.symbols.len() as int;
    let at = cell_number(n, start, span) * num;
    let cell = c.subrange(at, at + num);
    lemma_flat_bounds(n, num, start, span, a);
    assert(is_decoded_cell(g, times, words, c, mode, start, span)) by {
        let number = cell_number(n, start, span);
    }
    let (seeded, closed, log) = choose|
        seeded: Seq<ChartEntry>,
        closed: Seq<ChartEntry>,
        log: Seq<QueueItem>,
    | #[trigger] is_cell_history(g, times, words, c, mode, start, span, seeded, closed, log, cell);
    assert(cell[a] == c[flat(n, num, start, span, a)]);
    lemma_beam_keeps(mode, times, closed, cell, a, a);
    assert(is_last_install(log, a, closed[a]));
    let k = choose|k: int| #[trigger] is_last_at(log, a, closed[a], k);
    lemma_tame_history(g, times, words, c, mode, top, start, span, seeded, closed, log);
    lemma_descending_log_short(g, times, seeded, log);
    lemma_entry_spells_tree(
        g,
        times,
        words,
        c,
        mode,
        top,
        start,
        span,
        a,
        seeded,
        closed,
        log,
        k,
        c.len(),
    );
}

} // verus!
