//! The chart of the decoder: one cell for every span of the sentence, one
//! entry for every non-terminal in each cell, all in one buffer.

use vstd::prelude::*;

verus! {

/// `n (n + 1) / 2`: the number of spans of a sentence of `n` words.
pub open spec fn triangle(n: int) -> int {
    n * (n + 1) / 2
}

/// The number of the cell for the span of `span` words that starts at word
/// `start`, in a sentence of `n` words: the cells are numbered span by
/// span, the shortest first, and by their start within a span.
pub open spec fn cell_number(n: int, start: int, span: int) -> int {
    triangle(n) - triangle(n - span + 1) + start
}

/// Whether `start` and `span` name a span of a sentence of `n` words.
pub open spec fn is_span(n: int, start: int, span: int) -> bool {
    0 <= start && 1 <= span && start + span <= n
}

/// A number whose product with its successor fits in `usize` has a successor that fits.
pub proof fn lemma_successor_fits(n: int)
    requires
        0 <= n,
        n * (n + 1) <= usize::MAX,
    ensures
        n + 1 <= usize::MAX,
{
    if n >= 1 {
        assert(n + 1 <= n * (n + 1)) by (nonlinear_arith)
            requires
                n >= 1,
        ;
    }
}

pub proof fn lemma_triangle_step(n: int)
    requires
        n >= 0,
    ensures
        triangle(n + 1) == triangle(n) + n + 1,
        triangle(n) >= 0,
        triangle(0) == 0,
{
    assert((n + 1) * (n + 2) == n * (n + 1) + 2 * (n + 1)) by (nonlinear_arith);
    assert(n * (n + 1) >= 0) by (nonlinear_arith)
        requires
            n >= 0,
    ;
}

pub proof fn lemma_triangle_monotonic(a: int, b: int)
    requires
        0 <= a <= b,
    ensures
        triangle(a) <= triangle(b),
        a * (a + 1) <= b * (b + 1),
    decreases b - a,
{
    assert(a * (a + 1) <= b * (b + 1)) by (nonlinear_arith)
        requires
            0 <= a <= b,
    ;
}

/// The cells of the spans are numbered without gaps: a span's number is
/// below the number of spans, and spans of `k` words come before those of `k + 1`.
pub proof fn lemma_cell_number_bounds(n: int, start: int, span: int)
    requires
        is_span(n, start, span),
    ensures
        0 <= cell_number(n, start, span) < triangle(n),
        cell_number(n, 0, span) <= cell_number(n, start, span),
        span < n ==> cell_number(n, start, span) < cell_number(n, 0, span + 1),
        cell_number(n, 0, 1) == 0,
{
    let r = n - span + 1;
    lemma_triangle_step(n - span);
    lemma_triangle_step(r);
    lemma_triangle_monotonic(r, n);
    lemma_triangle_step(n);
}

/// Two spans with the same cell number are the same span.
pub proof fn lemma_cell_number_injective(n: int, s1: int, k1: int, s2: int, k2: int)
    requires
        is_span(n, s1, k1),
        is_span(n, s2, k2),
        cell_number(n, s1, k1) == cell_number(n, s2, k2),
    ensures
        s1 == s2,
        k1 == k2,
{
    if k1 < k2 {
        lemma_cell_number_bounds(n, s1, k1);
        lemma_cell_number_bounds(n, s2, k2);
        lemma_cells_ordered(n, k1 + 1, k2);
    } else if k2 < k1 {
        lemma_cell_number_bounds(n, s1, k1);
        lemma_cell_number_bounds(n, s2, k2);
        lemma_cells_ordered(n, k2 + 1, k1);
    }
}

proof fn lemma_cells_ordered(n: int, k1: int, k2: int)
    requires
        1 <= k1 <= k2 <= n,
    ensures
        cell_number(n, 0, k1) <= cell_number(n, 0, k2),
{
    lemma_triangle_monotonic(n - k2 + 1, n - k1 + 1);
}

/// The cell of a shorter span comes before the cell of a longer one.
pub proof fn lemma_shorter_span_first(n: int, s1: int, k1: int, s2: int, k2: int)
    requires
        is_span(n, s1, k1),
        is_span(n, s2, k2),
        k1 < k2,
    ensures
        cell_number(n, s1, k1) < cell_number(n, s2, k2),
{
    lemma_cell_number_bounds(n, s1, k1);
    lemma_cell_number_bounds(n, s2, k2);
    lemma_cells_ordered(n, k1 + 1, k2);
}

/// A dense chart over entries of type `T`.
pub struct Chart<T> {
    data: Vec<T>,
    sentence_len: usize,
    num_nonterminals: usize,
}

impl<T> Chart<T> {
    /// The entries, cell by cell.
    pub closed spec fn entries(self) -> Seq<T> {
        self.data@
    }

    /// The number of words of the sentence.
    pub closed spec fn words(self) -> int {
        self.sentence_len as int
    }

    /// The number of entries in a cell.
    pub closed spec fn width(self) -> int {
        self.num_nonterminals as int
    }

    /// The chart holds one entry per span and non-terminal, and the number of
    /// spans can be computed in `usize`.
    pub closed spec fn wf(self) -> bool {
        &&& self.sentence_len * (self.sentence_len + 1) <= usize::MAX
        &&& self.data@.len() == triangle(self.sentence_len as int) * self.num_nonterminals
        &&& self.data@.len() <= usize::MAX
    }

    /// What a well-formed chart holds, and that its sizes fit in `usize`.
    pub proof fn lemma_wf(self)
        requires
            self.wf(),
        ensures
            self.entries().len() == triangle(self.words()) * self.width(),
            self.entries().len() <= usize::MAX,
            0 <= self.words() <= usize::MAX,
            0 <= self.width() <= usize::MAX,
            self.words() * (self.words() + 1) <= usize::MAX,
    {
    }

    /// Where the cell of a span starts among the entries.
    pub open spec fn cell_start(self, start: int, span: int) -> int {
        cell_number(self.words(), start, span) * self.width()
    }

    /// The cell of a span lies within the entries.
    pub proof fn lemma_cell_within(self, start: int, span: int)
        requires
            self.wf(),
            is_span(self.words(), start, span),
        ensures
            0 <= self.cell_start(start, span),
            self.cell_start(start, span) + self.width() <= self.entries().len(),
    {
        let c = cell_number(self.words(), start, span);
        let t = triangle(self.words());
        let w = self.width();
        lemma_cell_number_bounds(self.words(), start, span);
        assert(0 <= c * w && (c + 1) * w <= t * w && (c + 1) * w == c * w + w) by (nonlinear_arith)
            requires
                0 <= c < t,
                0 <= w,
        ;
    }
}

impl<T: Copy + Default> Chart<T> {
    /// A chart for a sentence of `sentence_len` words and `num_nonterminals`
    /// non-terminals, with a default value in every entry.
    pub fn new(sentence_len: usize, num_nonterminals: usize) -> (r: Self)
        requires
            sentence_len * (sentence_len + 1) <= usize::MAX,
            triangle(sentence_len as int) * num_nonterminals <= usize::MAX,
        ensures
            r.wf(),
            r.words() == sentence_len,
            r.width() == num_nonterminals,
            forall|i: int|
                0 <= i < r.entries().len() ==> call_ensures(T::default, (), #[trigger] r.entries()[i]),
    {
        proof {
            lemma_successor_fits(sentence_len as int);
        }
        let cells = sentence_len * (sentence_len + 1) / 2;
        let total = cells * num_nonterminals;
        let fill = T::default();
        let mut data: Vec<T> = Vec::new();
        let mut k: usize = 0;
        while k < total
            invariant
                k <= total,
                data@.len() == k,
                call_ensures(T::default, (), fill),
                forall|i: int| 0 <= i < k ==> #[trigger] data@[i] == fill,
            decreases total - k,
        {
            data.push(fill);
            k += 1;
        }
        Chart { data, sentence_len, num_nonterminals }
    }
}

impl<T> Chart<T> {
    /// The entries, cell by cell.
    pub fn data(&self) -> (r: &[T])
        ensures
            r@ == self.entries(),
    {
        self.data.as_slice()
    }

    /// The number of words of the sentence.
    pub fn sentence_len(&self) -> (r: usize)
        ensures
            r == self.words(),
    {
        self.sentence_len
    }

    /// The number of entries in a cell.
    pub fn num_nt(&self) -> (r: usize)
        ensures
            r == self.width(),
    {
        self.num_nonterminals
    }

    /// Where the cell of the span of `span` words from word `start_pos` on
    /// starts among the entries. The place of one non-terminal's entry is
    /// this index plus the non-terminal's number.
    pub fn cell_start_index(&self, start_pos: usize, span: usize) -> (r: usize)
        requires
            self.wf(),
            is_span(self.words(), start_pos as int, span as int),
        ensures
            r == self.cell_start(start_pos as int, span as int),
            r + self.width() <= self.entries().len(),
    {
        let n = self.sentence_len;
        let rows_subtract = n - span + 1;
        proof {
            lemma_successor_fits(n as int);
            lemma_triangle_monotonic(rows_subtract as int, n as int);
            lemma_cell_number_bounds(n as int, start_pos as int, span as int);
            self.lemma_cell_within(start_pos as int, span as int);
        }
        let base_cells_subtract = (rows_subtract * (rows_subtract + 1)) / 2;
        let num_base_cells = (n * (n + 1)) / 2;
        let cell = num_base_cells - base_cells_subtract + start_pos;
        proof {
            let w = self.num_nonterminals as int;
            let t = triangle(n as int);
            let c = cell as int;
            assert(c == cell_number(n as int, start_pos as int, span as int));
            assert(t * w == self.data@.len());
            assert(0 <= c * w <= t * w) by (nonlinear_arith)
                requires
                    0 <= c < t,
                    0 <= w,
            ;
        }
        cell * self.num_nonterminals
    }

    /// The cell that starts at `start`, to be changed in place.
    pub fn get_cell_mut(&mut self, start: usize) -> (r: &mut [T])
        requires
            start + old(self).width() <= old(self).entries().len(),
        ensures
            r@ == old(self).entries().subrange(start as int, start + old(self).width()),
            final(self).entries() == old(self).entries().subrange(0, start as int) + final(r)@
                + old(self).entries().subrange(
                start + old(self).width(),
                old(self).entries().len() as int,
            ),
            final(self).words() == old(self).words(),
            final(self).width() == old(self).width(),
    {
        let width = self.num_nonterminals;
        let (_, rest) = self.data.as_mut_slice().split_at_mut(start);
        let (cell, _) = rest.split_at_mut(width);
        cell
    }

    /// The entry at `index`.
    pub fn get(&self, index: usize) -> (r: &T)
        requires
            index < self.entries().len(),
        ensures
            *r == self.entries()[index as int],
    {
        &self.data[index]
    }

    /// Puts `value` at `index`.
    pub fn set(&mut self, index: usize, value: T)
        requires
            index < old(self).entries().len(),
        ensures
            final(self).entries() == old(self).entries().update(index as int, value),
            final(self).words() == old(self).words(),
            final(self).width() == old(self).width(),
            old(self).wf() ==> final(self).wf(),
    {
        self.data[index] = value;
    }
}

} // verus!
