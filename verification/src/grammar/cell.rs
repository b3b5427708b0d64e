//! One cell of the chart: its entries, and the beams that prune them.
//!
//! A weight is held as an unsigned number whose order is the order of the
//! weights; 0 is the weight of an entry that is not there. The product of
//! two weights is not computed here: the decoder is handed a function for it.

use vstd::prelude::*;

verus! {

/// How an entry of the chart came about.
#[derive(Copy, Clone, Eq, PartialEq, Debug)]
pub enum BacktraceInfo {
    /// By a rule with two non-terminals; the two places in the chart of the entries it joined.
    Binary(usize, usize),
    /// By a rule with one non-terminal; that non-terminal's number, whose entry is in the same cell.
    Chain(usize),
    /// By a lexical rule; the position of the word in the sentence.
    Term(usize),
}

/// An entry of the chart: the weight of the best derivation found, and how it came about.
#[derive(Copy, Clone, Eq, PartialEq, Debug)]
pub struct ChartEntry {
    pub weight: u64,
    pub back: Option<BacktraceInfo>,
}

/// The entry that is not there: weight 0 and no trace.
pub open spec fn no_entry() -> ChartEntry {
    ChartEntry { weight: 0, back: None }
}

impl Default for ChartEntry {
    fn default() -> (r: Self)
        ensures
            r == no_entry(),
    {
        ChartEntry { weight: 0, back: None }
    }
}

/// The modes of the decoder: no pruning, a beam relative to the best weight
/// of a cell, a beam of a fixed number of entries, or the first beam and
/// then the second.
#[derive(Copy, Clone, Eq, PartialEq, Debug)]
pub enum CykMode {
    Base,
    PruneThreshold(u64),
    PruneFixedSize(usize),
    PruneBoth(u64, usize),
}

impl CykMode {
    /// Whether the mode can be used: a beam of a fixed size holds at least one entry.
    pub open spec fn is_valid(self) -> bool {
        match self {
            CykMode::PruneFixedSize(k) => k >= 1,
            CykMode::PruneBoth(_, k) => k >= 1,
            _ => true,
        }
    }

    /// Whether the mode prunes.
    pub fn is_prune(&self) -> (r: bool)
        ensures
            r == !(*self is Base),
    {
        match self {
            CykMode::Base => false,
            _ => true,
        }
    }

    /// Whether the mode can be used.
    pub fn check(&self) -> (r: bool)
        ensures
            r == self.is_valid(),
    {
        match self {
            CykMode::PruneFixedSize(k) => *k >= 1,
            CykMode::PruneBoth(_, k) => *k >= 1,
            _ => true,
        }
    }
}

/// The weights of the entries of a cell.
pub open spec fn weights(cell: Seq<ChartEntry>) -> Seq<u64> {
    Seq::new(cell.len(), |i: int| cell[i].weight)
}

/// Whether `m` is the greatest weight of the cell.
pub open spec fn is_max_weight(cell: Seq<ChartEntry>, m: u64) -> bool {
    &&& exists|i: int| 0 <= i < cell.len() && (#[trigger] cell[i]).weight == m
    &&& forall|i: int| 0 <= i < cell.len() ==> (#[trigger] cell[i]).weight <= m
}

/// The cell without the entries whose weight is less than `cutoff`.
pub open spec fn pruned_below(cell: Seq<ChartEntry>, cutoff: u64) -> Seq<ChartEntry> {
    Seq::new(
        cell.len(),
        |i: int|
            if cell[i].weight < cutoff {
                no_entry()
            } else {
                cell[i]
            },
    )
}

/// Whether `s` is in ascending order.
pub open spec fn is_ascending(s: Seq<u64>) -> bool {
    forall|i: int, j: int| 0 <= i <= j < s.len() ==> s[i] <= s[j]
}

/// Whether `x` is the `k`-th greatest of the weights `ws`, counted from 1
/// and with repetitions: the sorted weights hold `x` at place `k` from the top.
pub open spec fn is_kth_greatest(ws: Seq<u64>, k: int, x: u64) -> bool {
    exists|sorted: Seq<u64>|
        {
            &&& is_ascending(sorted)
            &&& sorted.to_multiset() == ws.to_multiset()
            &&& sorted.len() == ws.len()
            &&& 1 <= k <= sorted.len()
            &&& #[trigger] sorted[sorted.len() - k] == x
        }
}

/// Calls `sort_unstable` of slices, which sorts in ascending order: the
/// elements afterwards are those before, in order.
#[verifier::external_body]
fn sort_weights(v: &mut Vec<u64>)
    ensures
        is_ascending(final(v)@),
        final(v)@.to_multiset() == old(v)@.to_multiset(),
        final(v)@.len() == old(v)@.len(),
{
    v.sort_unstable()
}

/// The greatest weight of a cell that is not empty.
pub fn cell_max(cell: &Vec<ChartEntry>) -> (m: u64)
    requires
        cell.len() > 0,
    ensures
        is_max_weight(cell@, m),
{
    let mut m: u64 = cell[0].weight;
    let mut k: usize = 1;
    while k < cell.len()
        invariant
            1 <= k <= cell.len(),
            exists|i: int| 0 <= i < k && (#[trigger] cell@[i]).weight == m,
            forall|i: int| 0 <= i < k ==> (#[trigger] cell@[i]).weight <= m,
        decreases cell.len() - k,
    {
        if cell[k].weight > m {
            m = cell[k].weight;
        }
        k += 1;
    }
    m
}

/// Removes the entries whose weight is less than `cutoff`.
pub fn prune_below(cell: &mut Vec<ChartEntry>, cutoff: u64)
    ensures
        final(cell)@ == pruned_below(old(cell)@, cutoff),
{
    let mut k: usize = 0;
    while k < cell.len()
        invariant
            k <= cell.len(),
            cell.len() == old(cell).len(),
            forall|i: int| 0 <= i < k ==> #[trigger] cell@[i] == pruned_below(old(cell)@, cutoff)[i],
            forall|i: int| k <= i < cell.len() ==> #[trigger] cell@[i] == old(cell)@[i],
        decreases cell.len() - k,
    {
        if cell[k].weight < cutoff {
            cell[k] = ChartEntry { weight: 0, back: None };
        }
        k += 1;
    }
    assert(cell@ =~= pruned_below(old(cell)@, cutoff));
}

/// Whether `m` is the greatest weight of the cell and `cutoff` is what
/// `times` gave as the product of `m` and `threshold`.
pub open spec fn is_threshold_cutoff<F: Fn(u64, u64) -> u64>(
    times: &F,
    cell: Seq<ChartEntry>,
    threshold: u64,
    m: u64,
    cutoff: u64,
) -> bool {
    is_max_weight(cell, m) && times.ensures((m, threshold), cutoff)
}

/// The threshold beam: removes the entries whose weight is less than the
/// product of the cell's greatest weight and `threshold`, as `times` gives it.
pub fn prune_threshold<F: Fn(u64, u64) -> u64>(cell: &mut Vec<ChartEntry>, threshold: u64, times: &F)
    requires
        old(cell).len() > 0,
        forall|a: u64, b: u64| times.requires((a, b)),
    ensures
        exists|m: u64, cutoff: u64| #[trigger]
            is_threshold_cutoff(times, old(cell)@, threshold, m, cutoff) && final(cell)@
                == pruned_below(old(cell)@, cutoff),
{
    let m = cell_max(cell);
    let cutoff = times(m, threshold);
    prune_below(cell, cutoff);
    assert(is_threshold_cutoff(times, old(cell)@, threshold, m, cutoff));
}

/// The fixed-size beam: removes the entries whose weight is less than the
/// `n`-th greatest weight of the cell, or than the least where the cell has
/// fewer than `n` entries.
pub fn prune_fixed_size(cell: &mut Vec<ChartEntry>, n: usize)
    requires
        old(cell).len() > 0,
        n >= 1,
    ensures
        exists|cutoff: u64|
            {
                &&& is_kth_greatest(
                    weights(old(cell)@),
                    if n <= old(cell).len() {
                        n as int
                    } else {
                        old(cell).len() as int
                    },
                    cutoff,
                )
                &&& #[trigger] pruned_below(old(cell)@, cutoff) == final(cell)@
            },
{
    let mut sorted: Vec<u64> = Vec::new();
    let mut k: usize = 0;
    while k < cell.len()
        invariant
            k <= cell.len(),
            sorted@ =~= weights(cell@).take(k as int),
        decreases cell.len() - k,
    {
        sorted.push(cell[k].weight);
        k += 1;
    }
    assert(sorted@ =~= weights(cell@));
    sort_weights(&mut sorted);
    let rank = if n <= cell.len() {
        n
    } else {
        cell.len()
    };
    let cutoff = sorted[sorted.len() - rank];
    prune_below(cell, cutoff);
    assert(is_kth_greatest(weights(old(cell)@), rank as int, cutoff)) by {
        assert(sorted@[sorted@.len() - rank] == cutoff);
    }
    assert(pruned_below(old(cell)@, cutoff) == cell@);
}

/// A beam with cutoff 0 removes nothing.
pub proof fn lemma_prune_nothing(cell: Seq<ChartEntry>)
    ensures
        pruned_below(cell, 0) == cell,
{
    assert(pruned_below(cell, 0) =~= cell);
}

/// A beam whose cutoff is the greatest weight keeps the entries of that
/// weight and no other.
pub proof fn lemma_prune_to_best(cell: Seq<ChartEntry>, m: u64)
    requires
        is_max_weight(cell, m),
    ensures
        pruned_below(cell, m).len() == cell.len(),
        forall|i: int|
            0 <= i < cell.len() ==> #[trigger] pruned_below(cell, m)[i] == (if cell[i].weight == m {
                cell[i]
            } else {
                no_entry()
            }),
{
}

/// The threshold beam removes nothing where the product with the threshold
/// is 0, and keeps the best entries alone where the product with the
/// threshold is the greatest weight itself.
pub proof fn lemma_threshold_beam(before: Seq<ChartEntry>, after: Seq<ChartEntry>, m: u64, cutoff: u64)
    requires
        is_max_weight(before, m),
        after == pruned_below(before, cutoff),
    ensures
        cutoff == 0 ==> after == before,
        cutoff == m ==> forall|i: int|
            0 <= i < before.len() ==> #[trigger] after[i] == (if before[i].weight == m {
                before[i]
            } else {
                no_entry()
            }),
{
    lemma_prune_nothing(before);
    lemma_prune_to_best(before, m);
}

} // verus!
