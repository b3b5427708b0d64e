//! The queue of the unary closure: entries that wait to be put into a
//! cell, of which the heaviest leaves first.

use vstd::prelude::*;
use vstd::multiset::Multiset;
use crate::grammar::cell::{BacktraceInfo, ChartEntry};

verus! {

/// An entry that waits to be put into the cell, for the non-terminal `nt`.
#[derive(Copy, Clone, Debug)]
pub struct QueueItem {
    pub entry: ChartEntry,
    pub nt: usize,
}

/// The place of a trace among traces: none first, then the kinds in the
/// order binary, chain, word, and within a kind by their numbers.
pub open spec fn back_key(b: Option<BacktraceInfo>) -> (int, int, int) {
    match b {
        None => (0, 0, 0),
        Some(BacktraceInfo::Binary(i, j)) => (1, i as int, j as int),
        Some(BacktraceInfo::Chain(i)) => (2, i as int, 0),
        Some(BacktraceInfo::Term(i)) => (3, i as int, 0),
    }
}

/// Whether `a` comes before `b`: by weight, then by trace, then by non-terminal.
pub open spec fn item_before(a: QueueItem, b: QueueItem) -> bool {
    let ka = back_key(a.entry.back);
    let kb = back_key(b.entry.back);
    if a.entry.weight != b.entry.weight {
        a.entry.weight < b.entry.weight
    } else if ka.0 != kb.0 {
        ka.0 < kb.0
    } else if ka.1 != kb.1 {
        ka.1 < kb.1
    } else if ka.2 != kb.2 {
        ka.2 < kb.2
    } else {
        a.nt < b.nt
    }
}

/// The order of the items: of two items one comes before the other or
/// neither does, and what does not come before an item does not come
/// before what does not come before that item.
pub proof fn lemma_item_order(a: QueueItem, b: QueueItem, c: QueueItem)
    ensures
        item_before(a, b) ==> !item_before(b, a),
        !item_before(a, b) && !item_before(b, c) ==> !item_before(a, c),
        item_before(a, b) && !item_before(c, b) ==> item_before(a, c),
{
}

fn back_rank(b: &Option<BacktraceInfo>) -> (r: (u8, usize, usize))
    ensures
        (r.0 as int, r.1 as int, r.2 as int) == back_key(*b),
{
    match b {
        None => (0, 0, 0),
        Some(BacktraceInfo::Binary(i, j)) => (1, *i, *j),
        Some(BacktraceInfo::Chain(i)) => (2, *i, 0),
        Some(BacktraceInfo::Term(i)) => (3, *i, 0),
    }
}

/// Whether `a` comes before `b`.
pub fn comes_before(a: &QueueItem, b: &QueueItem) -> (r: bool)
    ensures
        r == item_before(*a, *b),
{
    let ka = back_rank(&a.entry.back);
    let kb = back_rank(&b.entry.back);
    if a.entry.weight != b.entry.weight {
        a.entry.weight < b.entry.weight
    } else if ka.0 != kb.0 {
        ka.0 < kb.0
    } else if ka.1 != kb.1 {
        ka.1 < kb.1
    } else if ka.2 != kb.2 {
        ka.2 < kb.2
    } else {
        a.nt < b.nt
    }
}

/// Whether no item of `s` comes before the item that stands above it in
/// the heap: the item at place `i` stands above those at `2 i + 1` and `2 i + 2`.
pub open spec fn is_heap(s: Seq<QueueItem>) -> bool {
    forall|i: int| 1 <= i < s.len() ==> !item_before(#[trigger] s[(i - 1) / 2], s[i])
}

/// Whether `s` is a heap but for the item at place `i`, which may come
/// before the items below it, while the item above it does not come before
/// the items below it.
pub open spec fn is_heap_but_below(s: Seq<QueueItem>, i: int) -> bool {
    &&& forall|j: int|
        1 <= j < s.len() && (j - 1) / 2 != i ==> !item_before(#[trigger] s[(j - 1) / 2], s[j])
    &&& forall|j: int|
        1 <= j < s.len() && (j - 1) / 2 == i && i > 0 ==> !item_before(
            s[(i - 1) / 2],
            #[trigger] s[j],
        )
}

/// Whether `s` is a heap but for the item at place `i`, which the item
/// above it may come before, while the item above it does not come before
/// the items below `i`.
pub open spec fn is_heap_but_above(s: Seq<QueueItem>, i: int) -> bool {
    &&& forall|j: int| 1 <= j < s.len() && j != i ==> !item_before(#[trigger] s[(j - 1) / 2], s[j])
    &&& forall|j: int|
        1 <= j < s.len() && (j - 1) / 2 == i && i > 0 ==> !item_before(
            s[(i - 1) / 2],
            #[trigger] s[j],
        )
}

/// In a heap no item comes after the first.
pub proof fn lemma_heap_first(s: Seq<QueueItem>, i: int)
    requires
        is_heap(s),
        0 <= i < s.len(),
    ensures
        !item_before(s[0], s[i]),
    decreases i,
{
    if i > 0 {
        let p = (i - 1) / 2;
        lemma_heap_first(s, p);
        assert(!item_before(s[p], s[i]));
        lemma_item_order(s[0], s[p], s[i]);
    }
}

/// The sequence `s` with the items at the places `i` and `j` exchanged.
pub open spec fn swapped(s: Seq<QueueItem>, i: int, j: int) -> Seq<QueueItem> {
    s.update(i, s[j]).update(j, s[i])
}

/// Exchanging two items keeps the items.
pub proof fn lemma_swapped_items(s: Seq<QueueItem>, i: int, j: int)
    requires
        0 <= i < s.len(),
        0 <= j < s.len(),
    ensures
        swapped(s, i, j).to_multiset() == s.to_multiset(),
{
    broadcast use vstd::multiset::group_multiset_axioms;

    let t = s.update(i, s[j]);
    vstd::seq_lib::to_multiset_update(s, i, s[j]);
    vstd::seq_lib::to_multiset_update(t, j, s[i]);
    vstd::seq_lib::to_multiset_contains(s, s[i]);
    vstd::seq_lib::to_multiset_contains(s, s[j]);
    assert(t[j] == s[j] || i == j);
    assert(swapped(s, i, j).to_multiset() =~= s.to_multiset());
}

/// A queue from which the item leaves first before which no other comes.
pub struct MaxQueue {
    items: Vec<QueueItem>,
}

impl View for MaxQueue {
    type V = Multiset<QueueItem>;

    /// The items that wait, each as often as it was put in and not taken out.
    closed spec fn view(&self) -> Multiset<QueueItem> {
        self.items@.to_multiset()
    }
}

impl MaxQueue {
    /// The items are held as a heap.
    pub closed spec fn wf(self) -> bool {
        is_heap(self.items@)
    }

    /// A queue without items.
    pub fn new() -> (r: Self)
        ensures
            r.wf(),
            r@ == Multiset::<QueueItem>::empty(),
    {
        let r = MaxQueue { items: Vec::new() };
        proof {
            vstd::seq_lib::to_multiset_len(r.items@);
            vstd::multiset::lemma_multiset_empty_len(r.items@.to_multiset());
        }
        r
    }

    /// The number of items that wait.
    pub fn len(&self) -> (r: usize)
        ensures
            r == self@.len(),
    {
        proof {
            vstd::seq_lib::to_multiset_len(self.items@);
        }
        self.items.len()
    }

    /// Puts an item into the queue.
    pub fn push(&mut self, item: QueueItem)
        requires
            old(self).wf(),
        ensures
            final(self).wf(),
            final(self)@ == old(self)@.insert(item),
    {
        let ghost target = self.items@.to_multiset().insert(item);
        proof {
            vstd::seq_lib::to_multiset_build(self.items@, item);
            let s = self.items@.push(item);
            assert forall|j: int| 1 <= j < s.len() && j != s.len() - 1 implies !item_before(
                #[trigger] s[(j - 1) / 2],
                s[j],
            ) by {
                assert(s[j] == self.items@[j]);
                assert(s[(j - 1) / 2] == self.items@[(j - 1) / 2]);
            }
        }
        self.items.push(item);
        let mut i: usize = self.items.len() - 1;
        while i > 0
            invariant
                i < self.items@.len(),
                self.items@.to_multiset() == target,
                is_heap_but_above(self.items@, i as int),
            ensures
                self.items@.to_multiset() == target,
                is_heap(self.items@),
            decreases i,
        {
            let p = (i - 1) / 2;
            let above = self.items[p];
            let below = self.items[i];
            if comes_before(&above, &below) {
                let ghost s = self.items@;
                self.items[p] = below;
                self.items[i] = above;
                proof {
                    let t = self.items@;
                    assert(t =~= swapped(s, p as int, i as int));
                    lemma_swapped_items(s, p as int, i as int);
                    lemma_sifted_up(s, i as int);
                }
                i = p;
            } else {
                proof {
                    assert forall|j: int| 1 <= j < self.items@.len() implies !item_before(
                        #[trigger] self.items@[(j - 1) / 2],
                        self.items@[j],
                    ) by {}
                }
                break ;
            }
        }
    }

    /// Takes an item out of the queue before which no other item comes.
    pub fn pop(&mut self) -> (r: QueueItem)
        requires
            old(self).wf(),
            old(self)@.len() > 0,
        ensures
            final(self).wf(),
            old(self)@.contains(r),
            final(self)@ == old(self)@.remove(r),
            forall|x: QueueItem| old(self)@.contains(x) ==> !item_before(r, x),
    {
        let ghost s0 = self.items@;
        proof {
            vstd::seq_lib::to_multiset_len(s0);
        }
        let first = self.items.swap_remove(0);
        let ghost target = self.items@.to_multiset();
        proof {
            broadcast use vstd::multiset::group_multiset_axioms;

            let last = s0.last();
            let t = s0.update(0, last);
            vstd::seq_lib::to_multiset_update(s0, 0, last);
            vstd::seq_lib::to_multiset_remove(t, t.len() - 1);
            assert(t.remove(t.len() - 1) =~= t.drop_last());
            vstd::seq_lib::to_multiset_contains(s0, first);
            vstd::seq_lib::to_multiset_contains(s0, last);
            assert(s0[0] == first);
            assert(target =~= s0.to_multiset().remove(first));
            assert forall|x: QueueItem| s0.to_multiset().contains(x) implies !item_before(
                first,
                x,
            ) by {
                vstd::seq_lib::to_multiset_contains(s0, x);
                let k = choose|k: int| 0 <= k < s0.len() && s0[k] == x;
                lemma_heap_first(s0, k);
            }
            let s1 = self.items@;
            assert forall|j: int| 1 <= j < s1.len() && (j - 1) / 2 != 0 implies !item_before(
                #[trigger] s1[(j - 1) / 2],
                s1[j],
            ) by {
                assert(s1[j] == s0[j]);
                assert(s1[(j - 1) / 2] == s0[(j - 1) / 2]);
            }
        }
        let n = self.items.len();
        let mut i: usize = 0;
        while i < n / 2
            invariant
                n == self.items@.len(),
                i < n || n == 0,
                self.items@.to_multiset() == target,
                is_heap_but_below(self.items@, i as int),
            ensures
                self.items@.to_multiset() == target,
                is_heap(self.items@),
            decreases n - i,
        {
            let left = 2 * i + 1;
            let right = left + 1;
            let mut c = left;
            if right < n && comes_before(&self.items[left], &self.items[right]) {
                c = right;
            }
            let here = self.items[i];
            let below = self.items[c];
            if comes_before(&here, &below) {
                let ghost s = self.items@;
                self.items[i] = below;
                self.items[c] = here;
                proof {
                    let t = self.items@;
                    assert(t =~= swapped(s, i as int, c as int));
                    lemma_swapped_items(s, i as int, c as int);
                    lemma_sifted_down(s, i as int, c as int);
                }
                i = c;
            } else {
                proof {
                    let s = self.items@;
                    assert forall|j: int| 1 <= j < s.len() implies !item_before(
                        #[trigger] s[(j - 1) / 2],
                        s[j],
                    ) by {
                        if (j - 1) / 2 == i {
                            assert(j == left || j == right);
                            if j != c {
                                lemma_item_order(s[i as int], s[c as int], s[j]);
                                lemma_item_order(s[c as int], s[j], s[i as int]);
                            }
                        }
                    }
                }
                break ;
            }
        }
        proof {
            let s = self.items@;
            if !is_heap(s) {
                assert forall|j: int| 1 <= j < s.len() implies !item_before(
                    #[trigger] s[(j - 1) / 2],
                    s[j],
                ) by {
                    assert((j - 1) / 2 != i);
                }
            }
        }
        first
    }
}

/// After the item at place `i`, which comes after the item above it, has
/// changed places with that item, the sequence is a heap but for the place above.
proof fn lemma_sifted_up(s: Seq<QueueItem>, i: int)
    requires
        0 < i < s.len(),
        is_heap_but_above(s, i),
        item_before(s[(i - 1) / 2], s[i]),
    ensures
        is_heap_but_above(swapped(s, (i - 1) / 2, i), (i - 1) / 2),
{
    let p = (i - 1) / 2;
    let t = swapped(s, p, i);
    assert forall|j: int| 1 <= j < t.len() && j != p implies !item_before(
        #[trigger] t[(j - 1) / 2],
        t[j],
    ) by {
        let q = (j - 1) / 2;
        if j == i {
            lemma_item_order(s[p], s[i], s[p]);
        } else if q == i {
            assert(!item_before(s[p], s[j]));
        } else if q == p {
            assert(!item_before(s[p], s[j]));
            lemma_item_order(s[j], s[p], s[i]);
            lemma_item_order(s[p], s[i], s[j]);
        } else {
            assert(t[j] == s[j]);
            assert(t[q] == s[q]);
        }
    }
    assert forall|j: int| 1 <= j < t.len() && (j - 1) / 2 == p && p > 0 implies !item_before(
        t[(p - 1) / 2],
        #[trigger] t[j],
    ) by {
        let g = (p - 1) / 2;
        assert(t[g] == s[g]);
        assert(!item_before(s[g], s[p]));
        if j == i {
        } else {
            assert(!item_before(s[p], s[j]));
            lemma_item_order(s[g], s[p], s[j]);
        }
    }
}

/// After the item at place `i` has changed places with the item at place
/// `c` below it, which comes after it and before which the other item below
/// `i` does not come, the sequence is a heap but for the place `c`.
proof fn lemma_sifted_down(s: Seq<QueueItem>, i: int, c: int)
    requires
        0 <= i < c < s.len(),
        (c - 1) / 2 == i,
        is_heap_but_below(s, i),
        item_before(s[i], s[c]),
        forall|j: int| 1 <= j < s.len() && (j - 1) / 2 == i ==> !item_before(s[c], #[trigger] s[j]),
    ensures
        is_heap_but_below(swapped(s, i, c), c),
{
    let t = swapped(s, i, c);
    assert forall|j: int| 1 <= j < t.len() && (j - 1) / 2 != c implies !item_before(
        #[trigger] t[(j - 1) / 2],
        t[j],
    ) by {
        let q = (j - 1) / 2;
        if j == c {
            lemma_item_order(s[i], s[c], s[i]);
        } else if q == i {
            assert(!item_before(s[c], s[j]));
        } else if j == i {
            assert(!item_before(s[q], s[c]));
            assert(t[q] == s[q]);
        } else {
            assert(t[j] == s[j]);
            assert(t[q] == s[q]);
        }
    }
    assert forall|j: int| 1 <= j < t.len() && (j - 1) / 2 == c && c > 0 implies !item_before(
        t[(c - 1) / 2],
        #[trigger] t[j],
    ) by {
        assert(t[j] == s[j]);
        assert(!item_before(s[c], s[j]));
    }
}

} // verus!
