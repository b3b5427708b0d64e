//! The unary closure of a cell: the entries that rules with one
//! non-terminal on the right add to it, best weight first.

use vstd::prelude::*;
use vstd::multiset::Multiset;
use crate::grammar::cell::{no_entry, BacktraceInfo, ChartEntry};
use crate::grammar::parse::{GrammarParse, GrammarView};
use crate::grammar::queue::{item_before, MaxQueue, QueueItem};

verus! {

/// Whether the grammar has a rule by which non-terminal `a` yields non-terminal `c` alone.
pub open spec fn has_chain(g: GrammarView, a: int, c: int) -> bool {
    &&& 0 <= c <= u32::MAX
    &&& g.chains.contains_key(c as u32)
    &&& exists|j: int| 0 <= j < g.chains[c as u32].len() && (#[trigger] g.chains[c as u32][j]).0 == a
}

/// Whether `r` is what `times` gave as the product of the weight of a rule
/// by which `a` yields `c` alone and a weight above 0 that is at most `limit`.
pub open spec fn is_chain_product<F: Fn(u64, u64) -> u64>(
    g: GrammarView,
    times: &F,
    a: int,
    c: int,
    limit: u64,
    r: u64,
) -> bool {
    &&& 0 <= c <= u32::MAX
    &&& g.chains.contains_key(c as u32)
    &&& exists|j: int, q: u64|
        0 <= j < g.chains[c as u32].len() && g.chains[c as u32][j].0 == a && 0 < q <= limit
            && #[trigger] times.ensures((g.chains[c as u32][j].1, q), r)
}

/// The entry that the rule at place `j` among the rules that yield `c`
/// alone offers, where `r` is the product of its weight and the weight of `c`.
pub open spec fn chain_item(g: GrammarView, c: int, j: int, r: u64) -> QueueItem {
    QueueItem {
        entry: ChartEntry { weight: r, back: Some(BacktraceInfo::Chain(c as usize)) },
        nt: g.chains[c as u32][j].0 as usize,
    }
}

/// Whether the rule at place `j` among the rules that yield `c` alone has
/// had its say: a product of its weight and the weight of `c`, as `times`
/// gives it, is at most the weight of the rule's left side, or waits in the queue.
pub open spec fn is_offered<F: Fn(u64, u64) -> u64>(
    g: GrammarView,
    times: &F,
    cell: Seq<ChartEntry>,
    queue: Multiset<QueueItem>,
    c: int,
    j: int,
) -> bool {
    exists|r: u64| #[trigger]
        times.ensures((g.chains[c as u32][j].1, cell[c].weight), r) && (cell[g.chains[c as u32][j].0 as int].weight
            >= r || queue.contains(chain_item(g, c, j, r)))
}

/// Whether every chain rule has had its say for every non-terminal with an
/// entry, but for the rules from place `done` on of the non-terminal `skip`.
pub open spec fn is_closed_except<F: Fn(u64, u64) -> u64>(
    g: GrammarView,
    times: &F,
    cell: Seq<ChartEntry>,
    queue: Multiset<QueueItem>,
    skip: int,
    done: int,
) -> bool {
    forall|c: int, j: int|
        0 <= c < cell.len() && c <= u32::MAX && cell[c].weight > 0 && g.chains.contains_key(c as u32)
            && 0 <= j < g.chains[c as u32].len() && (c != skip || j < done) ==> #[trigger] is_offered(
            g,
            times,
            cell,
            queue,
            c,
            j,
        )
}

/// Whether the cell is closed under the chain rules: for every
/// non-terminal with an entry and every rule that yields it alone, a product
/// of the rule's weight and the entry's weight, as `times` gives it, is at
/// most the weight of the rule's left side.
pub open spec fn is_chain_closed<F: Fn(u64, u64) -> u64>(
    g: GrammarView,
    times: &F,
    cell: Seq<ChartEntry>,
) -> bool {
    is_closed_except(g, times, cell, Multiset::empty(), -1, 0)
}

/// Whether `r` is what `times` gave as the product of the weight of a rule
/// by which `a` yields `c` alone and the weight `q`.
pub open spec fn is_rule_product<F: Fn(u64, u64) -> u64>(
    g: GrammarView,
    times: &F,
    a: int,
    c: int,
    q: u64,
    r: u64,
) -> bool {
    &&& 0 <= c <= u32::MAX
    &&& g.chains.contains_key(c as u32)
    &&& exists|j: int|
        0 <= j < g.chains[c as u32].len() && g.chains[c as u32][j].0 == a && #[trigger] times.ensures(
            (g.chains[c as u32][j].1, q),
            r,
        )
}

/// Whether `x` is what a chain rule makes of `from`: its trace points to
/// the non-terminal of `from`, which its own non-terminal yields alone, and
/// its weight is the product of such a rule's weight and the weight of `from`.
pub open spec fn is_chain_step<F: Fn(u64, u64) -> u64>(
    g: GrammarView,
    times: &F,
    from: QueueItem,
    x: QueueItem,
) -> bool {
    &&& x.entry.back == Some(BacktraceInfo::Chain(from.nt))
    &&& is_rule_product(
        g,
        times,
        x.nt as int,
        from.nt as int,
        from.entry.weight,
        x.entry.weight,
    )
}

/// Whether `x` comes from the cell `start` or from one of the first `upto`
/// items of `log`: it is the entry that its non-terminal started with, or
/// what a chain rule makes of one of those items.
pub open spec fn has_source<F: Fn(u64, u64) -> u64>(
    g: GrammarView,
    times: &F,
    start: Seq<ChartEntry>,
    log: Seq<QueueItem>,
    upto: int,
    x: QueueItem,
) -> bool {
    &&& x.nt < start.len()
    &&& x.entry == start[x.nt as int] || exists|i: int|
        0 <= i < upto && #[trigger] is_chain_step(g, times, log[i], x)
}

/// Whether the item at place `k` of `log` was rightly put into the cell:
/// it has a weight above 0, it comes from the cell `start` or from an item
/// put in before it, it is heavier than every item put in before it for the
/// same non-terminal, and the entry that its non-terminal started with, if
/// another, does not come after it in the order of the queue.
pub open spec fn is_install<F: Fn(u64, u64) -> u64>(
    g: GrammarView,
    times: &F,
    start: Seq<ChartEntry>,
    log: Seq<QueueItem>,
    k: int,
) -> bool {
    &&& log[k].entry.weight > 0
    &&& has_source(g, times, start, log, k, log[k])
    &&& forall|i: int|
        0 <= i < k && (#[trigger] log[i]).nt == log[k].nt ==> log[i].entry.weight
            < log[k].entry.weight
    &&& !item_before(log[k], start_item(start, log[k].nt as int))
}

/// Whether `log` lists entries that were rightly put into a cell that
/// started as `start`, in the order in which they were put in.
pub open spec fn is_closure_log<F: Fn(u64, u64) -> u64>(
    g: GrammarView,
    times: &F,
    start: Seq<ChartEntry>,
    log: Seq<QueueItem>,
) -> bool {
    forall|k: int| 0 <= k < log.len() ==> #[trigger] is_install(g, times, start, log, k)
}

/// Whether the item at place `k` of `log` is the last for non-terminal `b`, and holds `e`.
pub open spec fn is_last_at(log: Seq<QueueItem>, b: int, e: ChartEntry, k: int) -> bool {
    &&& 0 <= k < log.len()
    &&& log[k].nt == b
    &&& log[k].entry == e
    &&& forall|i: int| k < i < log.len() ==> (#[trigger] log[i]).nt != b
}

/// Whether `e` is what `log` leaves for non-terminal `b`: the entry that
/// was put in last for `b`, or no entry where none was put in.
pub open spec fn is_last_install(log: Seq<QueueItem>, b: int, e: ChartEntry) -> bool {
    ||| e == no_entry() && forall|k: int| 0 <= k < log.len() ==> (#[trigger] log[k]).nt != b
    ||| exists|k: int| #[trigger] is_last_at(log, b, e, k)
}

/// Whether products of weights up to `top` do not grow: what `times`
/// gives for two weights that are at most `top` is at most each of them, as
/// the product of two probabilities is.
pub open spec fn is_shrinking<F: Fn(u64, u64) -> u64>(times: &F, top: u64) -> bool {
    forall|w: u64, q: u64, r: u64|
        w <= top && q <= top && #[trigger] times.ensures((w, q), r) ==> r <= w && r <= q
}

/// Whether every chain rule has a weight of at most `top`.
pub open spec fn has_chains_upto(g: GrammarView, top: u64) -> bool {
    forall|b: u32, j: int|
        g.chains.contains_key(b) && 0 <= j < g.chains[b].len() ==> (#[trigger] g.chains[b][j]).1
            <= top
}

/// Whether every entry of the cell has a weight of at most `top`.
pub open spec fn is_cell_upto(cell: Seq<ChartEntry>, top: u64) -> bool {
    forall|a: int| 0 <= a < cell.len() ==> (#[trigger] cell[a]).weight <= top
}

/// Whether the closure of the cell `start` stays among the weights up to
/// `top`, where products do not grow: the cell and the chain rules have no
/// greater weight.
pub open spec fn is_tame_closure<F: Fn(u64, u64) -> u64>(
    g: GrammarView,
    times: &F,
    start: Seq<ChartEntry>,
    top: u64,
) -> bool {
    &&& is_shrinking(times, top)
    &&& has_chains_upto(g, top)
    &&& is_cell_upto(start, top)
}

/// Whether no item of `log` is heavier than one before it.
pub open spec fn is_descending(log: Seq<QueueItem>) -> bool {
    forall|i: int, k: int|
        0 <= i <= k < log.len() ==> (#[trigger] log[i]).entry.weight
            >= (#[trigger] log[k]).entry.weight
}

/// Whether `cell` is the closure of `start` as `log` tells it: every
/// entry of `log` was rightly put in, the cell holds for each non-terminal
/// what was put in last, and where the closure stays among weights whose
/// products do not grow, the entries were put in heaviest first.
pub open spec fn is_closure_of<F: Fn(u64, u64) -> u64>(
    g: GrammarView,
    times: &F,
    start: Seq<ChartEntry>,
    cell: Seq<ChartEntry>,
    log: Seq<QueueItem>,
) -> bool {
    &&& cell.len() == start.len()
    &&& is_closure_log(g, times, start, log)
    &&& forall|b: int| 0 <= b < cell.len() ==> #[trigger] is_last_install(log, b, cell[b])
    &&& forall|top: u64| #[trigger] is_tame_closure(g, times, start, top) ==> is_descending(log)
}

/// What the closure leaves for a non-terminal: no entry; or the entry
/// that the non-terminal started with; or an entry whose trace names a
/// non-terminal that it yields alone, and whose weight is the product of the
/// weight of such a rule and a weight above 0. What is left has a weight
/// above 0.
pub proof fn lemma_closed_entry<F: Fn(u64, u64) -> u64>(
    g: GrammarView,
    times: &F,
    start: Seq<ChartEntry>,
    cell: Seq<ChartEntry>,
    log: Seq<QueueItem>,
    a: int,
)
    requires
        is_closure_of(g, times, start, cell, log),
        0 <= a < cell.len(),
    ensures
        cell[a] == no_entry() || (cell[a].weight > 0 && (cell[a] == start[a] || (
        cell[a].back matches Some(BacktraceInfo::Chain(c)) && c < cell.len() && has_chain(
            g,
            a,
            c as int,
        ) && is_chain_product(g, times, a, c as int, u64::MAX, cell[a].weight)))),
{
    assert(is_last_install(log, a, cell[a]));
    if cell[a] != no_entry() {
        let k = choose|k: int| #[trigger] is_last_at(log, a, cell[a], k);
        assert(is_install(g, times, start, log, k));
        if cell[a] != start[a] {
            let i = choose|i: int| 0 <= i < k && #[trigger] is_chain_step(g, times, log[i], log[k]);
            assert(is_install(g, times, start, log, i));
            let c = log[i].nt as int;
            let j = choose|j: int|
                0 <= j < g.chains[c as u32].len() && g.chains[c as u32][j].0 == a && #[trigger] times.ensures(
                    (g.chains[c as u32][j].1, log[i].entry.weight),
                    cell[a].weight,
                );
            assert(0 <= j < g.chains[c as u32].len() && g.chains[c as u32][j].0 == a && 0
                < log[i].entry.weight <= u64::MAX && times.ensures(
                (g.chains[c as u32][j].1, log[i].entry.weight),
                cell[a].weight,
            ));
        }
    }
}

/// Where the closure stays among the weights up to `top`, no entry that
/// was put in is heavier than `top`.
pub proof fn lemma_log_upto<F: Fn(u64, u64) -> u64>(
    g: GrammarView,
    times: &F,
    start: Seq<ChartEntry>,
    log: Seq<QueueItem>,
    top: u64,
    k: int,
)
    requires
        is_closure_log(g, times, start, log),
        is_tame_closure(g, times, start, top),
        0 <= k < log.len(),
    ensures
        log[k].entry.weight <= top,
    decreases k,
{
    assert(is_install(g, times, start, log, k));
    if log[k].entry != start[log[k].nt as int] {
        let i = choose|i: int| 0 <= i < k && #[trigger] is_chain_step(g, times, log[i], log[k]);
        lemma_log_upto(g, times, start, log, top, i);
    }
}

/// Where the entries were put in heaviest first, each non-terminal got one entry at most.
pub proof fn lemma_descending_log_once<F: Fn(u64, u64) -> u64>(
    g: GrammarView,
    times: &F,
    start: Seq<ChartEntry>,
    log: Seq<QueueItem>,
    i: int,
    k: int,
)
    requires
        is_closure_log(g, times, start, log),
        is_descending(log),
        0 <= i < k < log.len(),
    ensures
        log[i].nt != log[k].nt,
{
    assert(is_install(g, times, start, log, k));
}

/// Where the entries were put in heaviest first, there are at most as
/// many of them as the cell has non-terminals.
pub proof fn lemma_descending_log_short<F: Fn(u64, u64) -> u64>(
    g: GrammarView,
    times: &F,
    start: Seq<ChartEntry>,
    log: Seq<QueueItem>,
)
    requires
        is_closure_log(g, times, start, log),
        is_descending(log),
    ensures
        log.len() <= start.len(),
{
    let nts = Seq::new(log.len(), |k: int| log[k].nt as int);
    let all = vstd::set_lib::set_int_range(0, start.len() as int);
    assert forall|i: int, j: int|
        0 <= i < nts.len() && 0 <= j < nts.len() && i != j implies nts[i] != nts[j] by {
        if i < j {
            lemma_descending_log_once(g, times, start, log, i, j);
        } else {
            lemma_descending_log_once(g, times, start, log, j, i);
        }
    }
    nts.unique_seq_to_set();
    vstd::set_lib::lemma_int_range(0, start.len() as int);
    assert forall|x: int| nts.to_set().contains(x) implies all.contains(x) by {
        let k = choose|k: int| 0 <= k < nts.len() && nts[k] == x;
        assert(is_install(g, times, start, log, k));
    }
    vstd::set_lib::lemma_len_subset(nts.to_set(), all);
}

/// What the closure leaves for a non-terminal `a` where the entries were
/// put in heaviest first, as they are where products do not grow (see
/// [`is_tame_closure`]): no entry; or the entry that `a` started with; or an entry that
/// points through a chain rule to a non-terminal `c` whose entry was put in
/// before it, is at least as heavy, and is the one that the cell holds: so the
/// weight is the product of the rule's weight and the weight that `c` has in the
/// closed cell, and the traces of a cell do not run in a circle.
pub proof fn lemma_closure_entry<F: Fn(u64, u64) -> u64>(
    g: GrammarView,
    times: &F,
    start: Seq<ChartEntry>,
    cell: Seq<ChartEntry>,
    log: Seq<QueueItem>,
    a: int,
) -> (r: (int, int))
    requires
        is_closure_of(g, times, start, cell, log),
        is_descending(log),
        0 <= a < cell.len(),
        cell[a] != no_entry(),
        cell[a] != start[a],
    ensures
        0 <= r.0 < r.1 < log.len(),
        is_last_at(log, a, cell[a], r.1),
        is_last_at(log, log[r.0].nt as int, cell[log[r.0].nt as int], r.0),
        cell[a].back == Some(BacktraceInfo::Chain(log[r.0].nt)),
        log[r.0].nt < cell.len(),
        cell[log[r.0].nt as int].weight >= cell[a].weight > 0,
        is_rule_product(
            g,
            times,
            a,
            log[r.0].nt as int,
            cell[log[r.0].nt as int].weight,
            cell[a].weight,
        ),
{
    assert(is_last_install(log, a, cell[a]));
    let k = choose|k: int| #[trigger] is_last_at(log, a, cell[a], k);
    assert(is_install(g, times, start, log, k));
    let i = choose|i: int| 0 <= i < k && #[trigger] is_chain_step(g, times, log[i], log[k]);
    assert(is_install(g, times, start, log, i));
    let c = log[i].nt as int;
    assert(is_last_install(log, c, cell[c]));
    assert(is_last_at(log, c, cell[c], i)) by {
        let j = choose|j: int| #[trigger] is_last_at(log, c, cell[c], j);
        if j < i {
            lemma_descending_log_once(g, times, start, log, j, i);
        } else if i < j {
            lemma_descending_log_once(g, times, start, log, i, j);
        }
    }
    (i, k)
}

/// Whether chain rules lead from the first non-terminal of `path` to the
/// last: each non-terminal of `path` but the first yields the one before it alone.
pub open spec fn is_chain_path(g: GrammarView, path: Seq<int>) -> bool {
    &&& path.len() > 0
    &&& forall|i: int| 1 <= i < path.len() ==> has_chain(g, #[trigger] path[i], path[i - 1])
}

/// Every entry that the closure puts into a cell that started with one
/// entry, for non-terminal `b0`, is reached from `b0` through chain rules,
/// whatever the products are.
pub proof fn lemma_log_path<F: Fn(u64, u64) -> u64>(
    g: GrammarView,
    times: &F,
    start: Seq<ChartEntry>,
    log: Seq<QueueItem>,
    b0: int,
    k: int,
) -> (path: Seq<int>)
    requires
        is_closure_log(g, times, start, log),
        forall|i: int| 0 <= i < start.len() && i != b0 ==> (#[trigger] start[i]).weight == 0,
        0 <= k < log.len(),
    ensures
        is_chain_path(g, path),
        path[0] == b0,
        path.last() == log[k].nt,
    decreases k,
{
    assert(is_install(g, times, start, log, k));
    if log[k].entry == start[log[k].nt as int] {
        seq![b0]
    } else {
        let i = choose|i: int| 0 <= i < k && #[trigger] is_chain_step(g, times, log[i], log[k]);
        let before = lemma_log_path(g, times, start, log, b0, i);
        let path = before.push(log[k].nt as int);
        assert(has_chain(g, log[k].nt as int, log[i].nt as int));
        assert forall|j: int| 1 <= j < path.len() implies has_chain(
            g,
            #[trigger] path[j],
            path[j - 1],
        ) by {
            if j < before.len() {
                assert(path[j] == before[j]);
                assert(path[j - 1] == before[j - 1]);
            }
        }
        path
    }
}

/// Every entry of the closure of a cell that started with one entry, for
/// non-terminal `b0`, stands for a non-terminal that is reached from `b0`
/// through chain rules, whatever the products are.
pub proof fn lemma_closure_path<F: Fn(u64, u64) -> u64>(
    g: GrammarView,
    times: &F,
    start: Seq<ChartEntry>,
    cell: Seq<ChartEntry>,
    log: Seq<QueueItem>,
    b0: int,
    a: int,
) -> (path: Seq<int>)
    requires
        is_closure_of(g, times, start, cell, log),
        forall|i: int| 0 <= i < start.len() && i != b0 ==> (#[trigger] start[i]).weight == 0,
        0 <= a < cell.len(),
        cell[a] != no_entry(),
    ensures
        is_chain_path(g, path),
        path[0] == b0,
        path.last() == a,
{
    assert(is_last_install(log, a, cell[a]));
    let k = choose|k: int| #[trigger] is_last_at(log, a, cell[a], k);
    lemma_log_path(g, times, start, log, b0, k)
}

/// The closure of a cell with one entry, where the entries were put in
/// heaviest first, as they are where products do not grow: where only
/// non-terminal `b0` starts with a weight above 0, that entry stays as
/// it is, and the closed cell holds for every other non-terminal no entry,
/// or an entry that is no heavier and that points through a chain rule to a
/// non-terminal whose entry was put in before it; so every entry is reached
/// from the entry of `b0`, which was put in first.
pub proof fn lemma_closure_of_single_entry<F: Fn(u64, u64) -> u64>(
    g: GrammarView,
    times: &F,
    start: Seq<ChartEntry>,
    cell: Seq<ChartEntry>,
    log: Seq<QueueItem>,
    b0: int,
    b: int,
)
    requires
        is_closure_of(g, times, start, cell, log),
        is_descending(log),
        0 <= b0 < cell.len(),
        0 <= b < cell.len(),
        start[b0].weight > 0,
        cell[b0].weight >= start[b0].weight,
        forall|i: int| 0 <= i < start.len() && i != b0 ==> (#[trigger] start[i]).weight == 0,
    ensures
        log.len() > 0,
        log[0] == start_item(start, b0),
        cell[b0] == start[b0],
        cell[b].weight <= start[b0].weight,
        b != b0 ==> cell[b] == no_entry() || exists|i: int, k: int|
            0 <= i < k < log.len() && is_last_at(log, b, cell[b], k) && is_last_at(
                log,
                log[i].nt as int,
                cell[log[i].nt as int],
                i,
            ) && #[trigger] is_chain_step(g, times, log[i], log[k]),
{
    assert(is_last_install(log, b0, cell[b0]));
    let k0 = choose|k: int| #[trigger] is_last_at(log, b0, cell[b0], k);
    assert(is_install(g, times, start, log, 0));
    assert(log[0].entry == start[log[0].nt as int]);
    assert(log[0].nt == b0);
    if k0 > 0 {
        lemma_descending_log_once(g, times, start, log, 0, k0);
    }
    assert(is_last_install(log, b, cell[b]));
    if cell[b] != no_entry() {
        let k = choose|k: int| #[trigger] is_last_at(log, b, cell[b], k);
        assert(log[0].entry.weight >= log[k].entry.weight);
        if b != b0 {
            assert(is_install(g, times, start, log, k));
            assert(cell[b].weight > 0);
            let r = lemma_closure_entry(g, times, start, cell, log, b);
            assert(is_chain_step(g, times, log[r.0], log[r.1])) by {
                let i = choose|i: int|
                    0 <= i < r.1 && #[trigger] is_chain_step(g, times, log[i], log[r.1]);
                assert(log[i].nt == log[r.0].nt);
                if i < r.0 {
                    lemma_descending_log_once(g, times, start, log, i, r.0);
                } else if r.0 < i {
                    lemma_descending_log_once(g, times, start, log, r.0, i);
                }
            }
        }
    }
}

/// How far the weights of a cell are from the greatest number: what bounds
/// the number of times that an entry can still get better.
spec fn headroom(cell: Seq<ChartEntry>) -> int
    decreases cell.len(),
{
    if cell.len() == 0 {
        0
    } else {
        headroom(cell.drop_last()) + (u64::MAX - cell.last().weight)
    }
}

proof fn lemma_headroom_update(cell: Seq<ChartEntry>, b: int, e: ChartEntry)
    requires
        0 <= b < cell.len(),
        e.weight > cell[b].weight,
    ensures
        0 <= headroom(cell.update(b, e)) < headroom(cell),
    decreases cell.len(),
{
    let after = cell.update(b, e);
    lemma_headroom_positive(cell.drop_last());
    if b == cell.len() - 1 {
        assert(after.drop_last() =~= cell.drop_last());
    } else {
        assert(after.drop_last() =~= cell.drop_last().update(b, e));
        lemma_headroom_update(cell.drop_last(), b, e);
    }
}

proof fn lemma_headroom_positive(cell: Seq<ChartEntry>)
    ensures
        0 <= headroom(cell),
    decreases cell.len(),
{
    if cell.len() > 0 {
        lemma_headroom_positive(cell.drop_last());
    }
}

/// The item that stands for the entry that non-terminal `b` started with.
pub open spec fn start_item(start: Seq<ChartEntry>, b: int) -> QueueItem {
    QueueItem { entry: start[b], nt: b as usize }
}

/// What holds of the queue and the cell while the closure runs.
spec fn closure_invariant(
    g: GrammarView,
    start: Seq<ChartEntry>,
    cell: Seq<ChartEntry>,
    queue: Multiset<QueueItem>,
) -> bool {
    &&& cell.len() == start.len()
    &&& cell.len() <= usize::MAX
    &&& cell.len() <= u32::MAX + 1
    &&& cell.len() == g.symbols.len()
    &&& g.numbers_in_range()
    &&& forall|x: QueueItem| #[trigger] queue.contains(x) ==> x.nt < cell.len()
    &&& forall|b: int|
        0 <= b < cell.len() ==> (#[trigger] cell[b]).weight >= start[b].weight || queue.contains(
            start_item(start, b),
        )
}

/// What taking an item out of a queue leaves: the item was in the queue,
/// and the queue holds it once less.
spec fn is_popped(
    queue0: Multiset<QueueItem>,
    queue1: Multiset<QueueItem>,
    item: QueueItem,
) -> bool {
    queue0.contains(item) && queue1 == queue0.remove(item)
}

/// What is in a queue after an item was taken out was in it before, and
/// what was in it before is in it afterwards or is the item.
proof fn lemma_popped(queue0: Multiset<QueueItem>, queue1: Multiset<QueueItem>, item: QueueItem)
    requires
        is_popped(queue0, queue1, item),
    ensures
        forall|x: QueueItem| #[trigger] queue1.contains(x) ==> queue0.contains(x),
        forall|x: QueueItem| #[trigger] queue0.contains(x) && x != item ==> queue1.contains(x),
{
    broadcast use vstd::multiset::group_multiset_axioms;

}

/// What is in a queue after an item was put in is the item or was in it
/// before, and what was in it before is in it afterwards, as is the item.
proof fn lemma_pushed(queue0: Multiset<QueueItem>, item: QueueItem)
    ensures
        forall|x: QueueItem| #[trigger]
            queue0.insert(item).contains(x) <==> (x == item || queue0.contains(x)),
{
    broadcast use vstd::multiset::group_multiset_axioms;

}

/// The invariant of the closure survives putting a better entry into the cell.
proof fn lemma_install(
    g: GrammarView,
    start: Seq<ChartEntry>,
    cell0: Seq<ChartEntry>,
    queue0: Multiset<QueueItem>,
    queue1: Multiset<QueueItem>,
    item: QueueItem,
)
    requires
        closure_invariant(g, start, cell0, queue0),
        is_popped(queue0, queue1, item),
        item.entry.weight > cell0[item.nt as int].weight,
    ensures
        closure_invariant(g, start, cell0.update(item.nt as int, item.entry), queue1),
{
    let b = item.nt as int;
    let cell = cell0.update(b, item.entry);
    lemma_popped(queue0, queue1, item);
    assert(queue0.contains(item));
    assert forall|x: QueueItem| #[trigger] queue1.contains(x) implies x.nt < cell.len() by {
        assert(queue0.contains(x));
    }
    assert forall|c: int| 0 <= c < cell.len() implies (#[trigger] cell[c]).weight
        >= start[c].weight || queue1.contains(start_item(start, c)) by {
        if c == b {
            if !(cell0[c].weight >= start[c].weight) {
                if start_item(start, c) != item {
                    assert(queue0.contains(start_item(start, c)));
                    assert(queue1.contains(start_item(start, c)));
                }
            }
        } else {
            assert(cell[c] == cell0[c]);
            if !(cell0[c].weight >= start[c].weight) {
                assert(queue0.contains(start_item(start, c)));
                assert(start_item(start, c).nt == c);
                assert(start_item(start, c) != item);
            }
        }
    }
}

/// The invariant of the closure survives dropping an entry that is no better than the cell's.
proof fn lemma_skip(
    g: GrammarView,
    start: Seq<ChartEntry>,
    cell: Seq<ChartEntry>,
    queue0: Multiset<QueueItem>,
    queue1: Multiset<QueueItem>,
    item: QueueItem,
)
    requires
        closure_invariant(g, start, cell, queue0),
        is_popped(queue0, queue1, item),
        item.entry.weight <= cell[item.nt as int].weight,
    ensures
        closure_invariant(g, start, cell, queue1),
{
    lemma_popped(queue0, queue1, item);
    assert forall|x: QueueItem| #[trigger] queue1.contains(x) implies x.nt < cell.len() by {
        assert(queue0.contains(x));
    }
    assert forall|c: int| 0 <= c < cell.len() implies (#[trigger] cell[c]).weight
        >= start[c].weight || queue1.contains(start_item(start, c)) by {
        if !(cell[c].weight >= start[c].weight) {
            assert(queue0.contains(start_item(start, c)));
            if start_item(start, c) == item {
                assert(item.nt == c);
            }
        }
    }
}

/// What the chain rules have offered stays offered when an item leaves the
/// queue and the entry of its non-terminal is at least as heavy as the item
/// afterwards. The rules of the item's non-terminal have to offer anew
/// where its entry changed.
proof fn lemma_offers_stay<F: Fn(u64, u64) -> u64>(
    g: GrammarView,
    times: &F,
    cell0: Seq<ChartEntry>,
    cell: Seq<ChartEntry>,
    queue0: Multiset<QueueItem>,
    queue1: Multiset<QueueItem>,
    item: QueueItem,
    skip: int,
)
    requires
        cell.len() == cell0.len(),
        cell.len() <= usize::MAX,
        cell.len() == g.symbols.len(),
        g.numbers_in_range(),
        is_popped(queue0, queue1, item),
        item.nt < cell.len(),
        forall|i: int| 0 <= i < cell.len() ==> (#[trigger] cell[i]).weight >= cell0[i].weight,
        forall|i: int| 0 <= i < cell.len() && i != skip ==> (#[trigger] cell[i]) == cell0[i],
        cell[item.nt as int].weight >= item.entry.weight,
        is_closed_except(g, times, cell0, queue0, -1, 0),
    ensures
        is_closed_except(g, times, cell, queue1, skip, 0),
{
    lemma_popped(queue0, queue1, item);
    assert forall|c: int, j: int|
        0 <= c < cell.len() && c <= u32::MAX && cell[c].weight > 0 && g.chains.contains_key(c as u32)
            && 0 <= j < g.chains[c as u32].len() && (c != skip || j < 0) implies #[trigger] is_offered(
        g,
        times,
        cell,
        queue1,
        c,
        j,
    ) by {
        assert(cell[c] == cell0[c]);
        assert(is_offered(g, times, cell0, queue0, c, j));
        let a = g.chains[c as u32][j].0 as int;
        let w = g.chains[c as u32][j].1;
        assert(a < cell.len());
        let r = choose|r: u64| #[trigger]
            times.ensures((w, cell0[c].weight), r) && (cell0[a].weight >= r || queue0.contains(
                chain_item(g, c, j, r),
            ));
        assert(cell[a].weight >= cell0[a].weight);
        if !(cell0[a].weight >= r) {
            let x = chain_item(g, c, j, r);
            assert(queue0.contains(x));
            if x == item {
                assert(item.nt == a);
                assert(cell[a].weight >= r);
            } else {
                assert(queue1.contains(x));
            }
        }
        assert(times.ensures((w, cell[c].weight), r) && (cell[a].weight >= r || queue1.contains(
            chain_item(g, c, j, r),
        )));
    }
}

/// What the chain rules have offered stays offered when an item joins the
/// queue, and the rule at place `done` of non-terminal `skip` has had its
/// say where the item is what it offers.
proof fn lemma_offer_made<F: Fn(u64, u64) -> u64>(
    g: GrammarView,
    times: &F,
    cell: Seq<ChartEntry>,
    queue0: Multiset<QueueItem>,
    skip: int,
    done: int,
    r: u64,
)
    requires
        0 <= skip < cell.len(),
        skip <= u32::MAX,
        g.chains.contains_key(skip as u32),
        0 <= done < g.chains[skip as u32].len(),
        times.ensures((g.chains[skip as u32][done].1, cell[skip].weight), r),
        is_closed_except(g, times, cell, queue0, skip, done),
    ensures
        is_closed_except(
            g,
            times,
            cell,
            queue0.insert(chain_item(g, skip, done, r)),
            skip,
            done + 1,
        ),
{
    let queue1 = queue0.insert(chain_item(g, skip, done, r));
    lemma_pushed(queue0, chain_item(g, skip, done, r));
    assert forall|c: int, j: int|
        0 <= c < cell.len() && c <= u32::MAX && cell[c].weight > 0 && g.chains.contains_key(c as u32)
            && 0 <= j < g.chains[c as u32].len() && (c != skip || j < done + 1) implies #[trigger] is_offered(
        g,
        times,
        cell,
        queue1,
        c,
        j,
    ) by {
        let a = g.chains[c as u32][j].0 as int;
        let w = g.chains[c as u32][j].1;
        if c == skip && j == done {
            assert(queue1.contains(chain_item(g, c, j, r)));
            assert(times.ensures((w, cell[c].weight), r) && (cell[a].weight >= r
                || queue1.contains(chain_item(g, c, j, r))));
        } else {
            assert(is_offered(g, times, cell, queue0, c, j));
            let r0 = choose|r0: u64| #[trigger]
                times.ensures((w, cell[c].weight), r0) && (cell[a].weight >= r0 || queue0.contains(
                    chain_item(g, c, j, r0),
                ));
            if !(cell[a].weight >= r0) {
                assert(queue0.contains(chain_item(g, c, j, r0)));
                assert(queue1.contains(chain_item(g, c, j, r0)));
            }
            assert(times.ensures((w, cell[c].weight), r0) && (cell[a].weight >= r0
                || queue1.contains(chain_item(g, c, j, r0))));
        }
    }
}

/// The invariant of the closure survives an item that joins the queue.
proof fn lemma_push(
    g: GrammarView,
    start: Seq<ChartEntry>,
    cell: Seq<ChartEntry>,
    queue0: Multiset<QueueItem>,
    pushed: QueueItem,
)
    requires
        closure_invariant(g, start, cell, queue0),
        pushed.nt < cell.len(),
    ensures
        closure_invariant(g, start, cell, queue0.insert(pushed)),
{
    let queue = queue0.insert(pushed);
    lemma_pushed(queue0, pushed);
    assert forall|x: QueueItem| #[trigger] queue.contains(x) implies x.nt < cell.len() by {
        if x != pushed {
            assert(queue0.contains(x));
        }
    }
    assert forall|c: int| 0 <= c < cell.len() implies (#[trigger] cell[c]).weight
        >= start[c].weight || queue.contains(start_item(start, c)) by {
        if !(cell[c].weight >= start[c].weight) {
            assert(queue0.contains(start_item(start, c)));
            assert(queue.contains(start_item(start, c)));
        }
    }
}

/// What holds of the entries put into the cell, `log`, while the closure runs.
spec fn trace_invariant<F: Fn(u64, u64) -> u64>(
    g: GrammarView,
    times: &F,
    start: Seq<ChartEntry>,
    cell: Seq<ChartEntry>,
    queue: Multiset<QueueItem>,
    log: Seq<QueueItem>,
) -> bool {
    &&& cell.len() == start.len()
    &&& is_closure_log(g, times, start, log)
    &&& forall|b: int| 0 <= b < cell.len() ==> #[trigger] is_last_install(log, b, cell[b])
    &&& forall|x: QueueItem| #[trigger]
        queue.contains(x) ==> has_source(g, times, start, log, log.len() as int, x)
    &&& forall|top: u64| #[trigger]
        is_tame_closure(g, times, start, top) ==> is_descending(log) && is_queue_upto(queue, log)
}

/// Whether no item of the queue is heavier than the entry put in last.
spec fn is_queue_upto(queue: Multiset<QueueItem>, log: Seq<QueueItem>) -> bool {
    log.len() > 0 ==> forall|x: QueueItem| #[trigger]
        queue.contains(x) ==> x.entry.weight <= log.last().entry.weight
}

/// A source among the items of a log is one among the items of a longer log.
proof fn lemma_source_stays<F: Fn(u64, u64) -> u64>(
    g: GrammarView,
    times: &F,
    start: Seq<ChartEntry>,
    log0: Seq<QueueItem>,
    log1: Seq<QueueItem>,
    upto: int,
    x: QueueItem,
)
    requires
        has_source(g, times, start, log0, upto, x),
        0 <= upto <= log0.len() <= log1.len(),
        forall|i: int| 0 <= i < log0.len() ==> log0[i] == log1[i],
    ensures
        has_source(g, times, start, log1, upto, x),
{
    if x.entry != start[x.nt as int] {
        let i = choose|i: int| 0 <= i < upto && #[trigger] is_chain_step(g, times, log0[i], x);
        assert(is_chain_step(g, times, log1[i], x));
    }
}

/// What holds of the log survives putting a better entry into the cell.
proof fn lemma_trace_install<F: Fn(u64, u64) -> u64>(
    g: GrammarView,
    times: &F,
    start: Seq<ChartEntry>,
    cell0: Seq<ChartEntry>,
    queue0: Multiset<QueueItem>,
    queue1: Multiset<QueueItem>,
    item: QueueItem,
    log0: Seq<QueueItem>,
)
    requires
        trace_invariant(g, times, start, cell0, queue0, log0),
        closure_invariant(g, start, cell0, queue0),
        is_popped(queue0, queue1, item),
        forall|x: QueueItem| queue0.contains(x) ==> !item_before(item, x),
        item.entry.weight > cell0[item.nt as int].weight,
    ensures
        trace_invariant(
            g,
            times,
            start,
            cell0.update(item.nt as int, item.entry),
            queue1,
            log0.push(item),
        ),
{
    let b = item.nt as int;
    let cell = cell0.update(b, item.entry);
    let log = log0.push(item);
    let n = log0.len() as int;
    lemma_popped(queue0, queue1, item);
    assert(queue0.contains(item));
    assert(has_source(g, times, start, log0, n, item));
    assert forall|k: int| 0 <= k < log.len() implies #[trigger] is_install(
        g,
        times,
        start,
        log,
        k,
    ) by {
        if k < n {
            assert(is_install(g, times, start, log0, k));
            lemma_source_stays(g, times, start, log0, log, k, log0[k]);
            assert forall|i: int| 0 <= i < k && (#[trigger] log[i]).nt == log[k].nt implies log[i].entry.weight
                < log[k].entry.weight by {
                assert(log0[i].nt == log0[k].nt);
            }
        } else {
            lemma_source_stays(g, times, start, log0, log, n, item);
            assert(is_last_install(log0, b, cell0[b]));
            assert forall|i: int| 0 <= i < k && (#[trigger] log[i]).nt == log[k].nt implies log[i].entry.weight
                < log[k].entry.weight by {
                assert(log0[i].nt == b);
                let last = choose|j: int| #[trigger] is_last_at(log0, b, cell0[b], j);
                assert(is_install(g, times, start, log0, last));
                if i > last {
                    assert(log0[i].nt != b);
                }
            }
            if !(cell0[b].weight >= start[b].weight) {
                assert(queue0.contains(start_item(start, b)));
            }
        }
    }
    assert forall|c: int| 0 <= c < cell.len() implies #[trigger] is_last_install(
        log,
        c,
        cell[c],
    ) by {
        if c == b {
            assert(is_last_at(log, c, cell[c], n));
        } else {
            assert(is_last_install(log0, c, cell0[c]));
            if exists|k: int| #[trigger] is_last_at(log0, c, cell0[c], k) {
                let k = choose|k: int| #[trigger] is_last_at(log0, c, cell0[c], k);
                assert forall|i: int| k < i < log.len() implies (#[trigger] log[i]).nt != c by {
                    if i < n {
                        assert(log0[i].nt != c);
                    }
                }
                assert(is_last_at(log, c, cell[c], k));
            } else {
                assert forall|k: int| 0 <= k < log.len() implies (#[trigger] log[k]).nt != c by {
                    if k < n {
                        assert(log0[k].nt != c);
                    }
                }
            }
        }
    }
    assert forall|x: QueueItem| #[trigger] queue1.contains(x) implies has_source(
        g,
        times,
        start,
        log,
        log.len() as int,
        x,
    ) by {
        assert(queue0.contains(x));
        lemma_source_stays(g, times, start, log0, log, n, x);
        if x.entry != start[x.nt as int] {
            let i = choose|i: int| 0 <= i < n && #[trigger] is_chain_step(g, times, log[i], x);
            assert(0 <= i < log.len());
        }
    }
    assert forall|top: u64| #[trigger] is_tame_closure(g, times, start, top) implies is_descending(
        log,
    ) && is_queue_upto(queue1, log) by {
        assert(is_descending(log0) && is_queue_upto(queue0, log0));
        assert forall|i: int, k: int| 0 <= i <= k < log.len() implies (#[trigger] log[i]).entry.weight
            >= (#[trigger] log[k]).entry.weight by {
            if k < n {
                assert(log0[i].entry.weight >= log0[k].entry.weight);
            } else if i < n {
                assert(log0[i].entry.weight >= log0[n - 1].entry.weight);
            }
        }
        assert forall|x: QueueItem| #[trigger] queue1.contains(x) implies x.entry.weight
            <= log.last().entry.weight by {
            assert(queue0.contains(x));
            assert(!item_before(item, x));
        }
    }
}

/// What holds of the log survives dropping an item from the queue.
proof fn lemma_trace_skip<F: Fn(u64, u64) -> u64>(
    g: GrammarView,
    times: &F,
    start: Seq<ChartEntry>,
    cell: Seq<ChartEntry>,
    queue0: Multiset<QueueItem>,
    queue1: Multiset<QueueItem>,
    item: QueueItem,
    log: Seq<QueueItem>,
)
    requires
        trace_invariant(g, times, start, cell, queue0, log),
        is_popped(queue0, queue1, item),
    ensures
        trace_invariant(g, times, start, cell, queue1, log),
{
    lemma_popped(queue0, queue1, item);
    assert forall|x: QueueItem| #[trigger] queue1.contains(x) implies has_source(
        g,
        times,
        start,
        log,
        log.len() as int,
        x,
    ) by {
        assert(queue0.contains(x));
    }
    assert forall|top: u64| #[trigger] is_tame_closure(g, times, start, top) implies is_descending(
        log,
    ) && is_queue_upto(queue1, log) by {
        assert(is_descending(log) && is_queue_upto(queue0, log));
        if log.len() > 0 {
            assert forall|x: QueueItem| #[trigger] queue1.contains(x) implies x.entry.weight
                <= log.last().entry.weight by {
                assert(queue0.contains(x));
            }
        }
    }
}

/// What holds of the log survives an item that joins the queue and is
/// what a chain rule makes of the entry put in last.
proof fn lemma_trace_push<F: Fn(u64, u64) -> u64>(
    g: GrammarView,
    times: &F,
    start: Seq<ChartEntry>,
    cell: Seq<ChartEntry>,
    queue0: Multiset<QueueItem>,
    pushed: QueueItem,
    log: Seq<QueueItem>,
)
    requires
        trace_invariant(g, times, start, cell, queue0, log),
        log.len() > 0,
        pushed.nt < start.len(),
        is_chain_step(g, times, log.last(), pushed),
    ensures
        trace_invariant(g, times, start, cell, queue0.insert(pushed), log),
{
    let queue = queue0.insert(pushed);
    lemma_pushed(queue0, pushed);
    let n = log.len() as int;
    assert forall|x: QueueItem| #[trigger] queue.contains(x) implies has_source(
        g,
        times,
        start,
        log,
        n,
        x,
    ) by {
        if x == pushed {
            assert(is_chain_step(g, times, log[n - 1], x));
        } else {
            assert(queue0.contains(x));
        }
    }
    assert forall|top: u64| #[trigger] is_tame_closure(g, times, start, top) implies is_descending(
        log,
    ) && is_queue_upto(queue, log) by {
        assert(is_descending(log) && is_queue_upto(queue0, log));
        lemma_log_upto(g, times, start, log, top, n - 1);
        assert forall|x: QueueItem| #[trigger] queue.contains(x) implies x.entry.weight
            <= log.last().entry.weight by {
            if x != pushed {
                assert(queue0.contains(x));
            } else {
                let c = log.last().nt;
                let j = choose|j: int|
                    0 <= j < g.chains[c as u32].len() && g.chains[c as u32][j].0 == x.nt as int
                        && #[trigger] times.ensures(
                        (g.chains[c as u32][j].1, log.last().entry.weight),
                        x.entry.weight,
                    );
                assert(times.ensures(
                    (g.chains[c as u32][j].1, log.last().entry.weight),
                    x.entry.weight,
                ));
            }
        }
    }
}

impl GrammarParse {
    /// Closes a cell under the rules with one non-terminal on the right.
    ///
    /// The entries of the cell are taken out and put back best first, and
    /// each entry that is put back offers, for every rule that yields its
    /// non-terminal alone, an entry for the rule's left side, with the product
    /// of the rule's weight and its own as `times` gives it. An entry is put
    /// into the cell only where its weight is above the weight that is there.
    ///
    /// The closed cell is what a list of such entries leaves, each of which
    /// comes from the cell as it was or from an entry put in before it: see
    /// [`is_closure_of`]. Where the cell and the chain rules hold weights
    /// whose products do not grow, each non-terminal gets
    /// one entry at most, so that an entry that a chain rule made holds the
    /// product with the weight that the closed cell has for the non-terminal
    /// that it points to: see [`lemma_closure_entry`].
    pub fn unary_closure<F: Fn(u64, u64) -> u64>(&self, cell: &mut Vec<ChartEntry>, times: &F)
        requires
            self.wf(),
            old(cell).len() == self@.symbols.len(),
            forall|a: u64, b: u64| times.requires((a, b)),
        ensures
            final(cell).len() == old(cell).len(),
            forall|b: int|
                0 <= b < old(cell).len() ==> (#[trigger] final(cell)@[b]).weight >= old(
                    cell,
                )@[b].weight,
            is_chain_closed(self@, times, final(cell)@),
            exists|log: Seq<QueueItem>| #[trigger]
                is_closure_of(self@, times, old(cell)@, final(cell)@, log),
    {
        let n = cell.len();
        let ghost start = cell@;
        let ghost g = self@;
        proof {
            self.lemma_wf();
        }
        let mut queue = MaxQueue::new();
        let mut i: usize = 0;
        while i < n
            invariant
                i <= n,
                n == cell.len(),
                cell@ == start,
                queue.wf(),
                forall|x: QueueItem| #[trigger]
                    queue@.contains(x) ==> x.nt < n && x.entry == start[x.nt as int],
                forall|b: int|
                    0 <= b < i ==> (#[trigger] start[b]).weight == 0 || queue@.contains(
                        start_item(start, b),
                    ),
            decreases n - i,
        {
            if cell[i].weight != 0 {
                let ghost before = queue@;
                queue.push(QueueItem { entry: cell[i], nt: i });
                proof {
                    lemma_pushed(before, start_item(start, i as int));
                    assert forall|b: int| 0 <= b < i + 1 implies (#[trigger] start[b]).weight == 0
                        || queue@.contains(start_item(start, b)) by {
                        if b < i && start[b].weight != 0 {
                            assert(before.contains(start_item(start, b)));
                        }
                    }
                }
            }
            i += 1;
        }
        let mut i: usize = 0;
        while i < n
            invariant
                i <= n,
                n == cell.len(),
                forall|b: int| 0 <= b < i ==> #[trigger] cell@[b] == no_entry(),
            decreases n - i,
        {
            cell[i] = ChartEntry { weight: 0, back: None };
            i += 1;
        }
        proof {
            assert(closure_invariant(g, start, cell@, queue@)) by {
                assert forall|b: int| 0 <= b < cell@.len() implies (#[trigger] cell@[b]).weight
                    >= start[b].weight || queue@.contains(start_item(start, b)) by {
                    assert(cell@[b] == no_entry());
                    assert(start[b].weight == 0 || queue@.contains(start_item(start, b)));
                }
            }
            assert(is_closed_except(g, times, cell@, queue@, -1, 0)) by {
                assert forall|c: int| 0 <= c < cell@.len() implies (#[trigger] cell@[c]).weight
                    == 0 by {
                    assert(cell@[c] == no_entry());
                }
            }
        }
        let ghost mut log: Seq<QueueItem> = Seq::empty();
        proof {
            assert forall|b: int| 0 <= b < cell@.len() implies #[trigger] is_last_install(
                log,
                b,
                cell@[b],
            ) by {
                assert(cell@[b] == no_entry());
            }
            assert(trace_invariant(g, times, start, cell@, queue@, log));
        }
        while queue.len() > 0
            invariant
                n == cell.len(),
                g == self@,
                queue.wf(),
                forall|a: u64, b: u64| times.requires((a, b)),
                closure_invariant(g, start, cell@, queue@),
                is_closed_except(g, times, cell@, queue@, -1, 0),
                trace_invariant(g, times, start, cell@, queue@, log),
            decreases headroom(cell@), queue@.len(),
        {
            let ghost cell0 = cell@;
            let ghost queue0 = queue@;
            let item = queue.pop();
            let b = item.nt;
            let q = item.entry.weight;
            let ghost queue1 = queue@;
            proof {
                assert(is_popped(queue0, queue1, item));
                assert(queue1.len() < queue0.len()) by {
                    broadcast use vstd::multiset::group_multiset_axioms;

                }
            }
            if q > cell[b].weight {
                cell[b] = item.entry;
                proof {
                    lemma_headroom_update(cell0, b as int, item.entry);
                    assert(cell@ == cell0.update(b as int, item.entry));
                    lemma_install(g, start, cell0, queue0, queue1, item);
                    lemma_offers_stay(g, times, cell0, cell@, queue0, queue1, item, b as int);
                    lemma_trace_install(g, times, start, cell0, queue0, queue1, item, log);
                    log = log.push(item);
                }
                match self.chains_for(b as u32) {
                    Some(rules) => {
                        let mut j: usize = 0;
                        while j < rules.len()
                            invariant
                                j <= rules.len(),
                                n == cell.len(),
                                b < n,
                                g == self@,
                                queue.wf(),
                                g.chains.contains_key(b as u32),
                                rules@ == g.chains[b as u32],
                                cell@[b as int].weight > 0,
                                q == cell@[b as int].weight,
                                forall|x: u64, y: u64| times.requires((x, y)),
                                closure_invariant(g, start, cell@, queue@),
                                is_closed_except(g, times, cell@, queue@, b as int, j as int),
                                trace_invariant(g, times, start, cell@, queue@, log),
                                log.len() > 0,
                                log.last().nt == b,
                                log.last().entry.weight == q,
                            decreases rules.len() - j,
                        {
                            let (a, w) = rules[j];
                            let r = times(w, q);
                            let ghost before = queue@;
                            let pushed = QueueItem {
                                entry: ChartEntry {
                                    weight: r,
                                    back: Some(BacktraceInfo::Chain(b)),
                                },
                                nt: a as usize,
                            };
                            proof {
                                assert(g.chains[b as u32][j as int].0 == a);
                                assert(g.chains[b as u32][j as int].1 == w);
                                assert(pushed == chain_item(g, b as int, j as int, r));
                                lemma_push(g, start, cell@, before, pushed);
                                lemma_offer_made(g, times, cell@, before, b as int, j as int, r);
                                assert(is_rule_product(g, times, a as int, b as int, q, r));
                                assert(is_chain_step(g, times, log.last(), pushed));
                                lemma_trace_push(g, times, start, cell@, before, pushed, log);
                            }
                            queue.push(pushed);
                            j += 1;
                        }
                        proof {
                            assert(is_closed_except(g, times, cell@, queue@, -1, 0));
                        }
                    },
                    None => {
                        proof {
                            assert(is_closed_except(g, times, cell@, queue@, -1, 0));
                        }
                    },
                }
            } else {
                proof {
                    lemma_skip(g, start, cell0, queue0, queue1, item);
                    lemma_offers_stay(g, times, cell0, cell0, queue0, queue1, item, -1);
                    lemma_trace_skip(g, times, start, cell0, queue0, queue1, item, log);
                }
            }
        }
        proof {
            assert(queue@ =~= Multiset::<QueueItem>::empty()) by {
                vstd::multiset::lemma_multiset_empty_len(queue@);
            }
            assert forall|b: int| 0 <= b < n implies (#[trigger] cell@[b]).weight
                >= start[b].weight by {
                assert(cell@[b].weight >= start[b].weight || queue@.contains(start_item(start, b)));
                assert(!queue@.contains(start_item(start, b))) by {
                    broadcast use vstd::multiset::group_multiset_axioms;

                }
            }
            assert(is_closure_of(g, times, start, cell@, log));
        }
    }
}

} // verus!
