//! Symbols and their numbers: the first symbol has number 0, and every
//! new symbol gets the next number.

use vstd::prelude::*;
use crate::grammar::tables::{index_get, index_insert, index_new, symbol_index, SymbolIndex};
use crate::tree::label_views;

verus! {

/// The symbols after `s` got a number, and that number: the one `s` had,
/// or the next free one.
pub open spec fn interned(symbols: Seq<Seq<char>>, s: Seq<char>) -> (Seq<Seq<char>>, int) {
    if symbols.contains(s) {
        (symbols, symbols.index_of(s))
    } else {
        (symbols.push(s), symbols.len() as int)
    }
}

/// Whether no symbol occurs twice in `symbols`.
pub open spec fn no_symbol_twice(symbols: Seq<Seq<char>>) -> bool {
    forall|i: int, j: int| 0 <= i < j < symbols.len() ==> symbols[i] != symbols[j]
}

/// Symbols with their numbers.
pub struct SymbolTable {
    lookup: Vec<String>,
    lookup_index: SymbolIndex,
}

impl View for SymbolTable {
    type V = Seq<Seq<char>>;

    /// The symbols in the order of their numbers.
    closed spec fn view(&self) -> Seq<Seq<char>> {
        label_views(self.lookup@)
    }
}

impl SymbolTable {
    /// The index holds every symbol under its number, and nothing else; the
    /// numbers fit in 32 bits.
    pub closed spec fn wf(self) -> bool {
        let symbols = label_views(self.lookup@);
        let index = symbol_index(self.lookup_index);
        &&& symbols.len() <= u32::MAX + 1
        &&& forall|i: int|
            0 <= i < symbols.len() ==> index.contains_key(#[trigger] symbols[i]) && index[symbols[i]]
                == i
        &&& forall|s: Seq<char>| #[trigger]
            index.contains_key(s) ==> 0 <= index[s] < symbols.len() && symbols[index[s] as int] == s
    }

    /// In a well-formed table no symbol occurs twice, and the numbers fit in 32 bits.
    pub proof fn lemma_wf(self)
        requires
            self.wf(),
        ensures
            no_symbol_twice(self@),
            self@.len() <= u32::MAX + 1,
    {
        let symbols = label_views(self.lookup@);
        let index = symbol_index(self.lookup_index);
        assert forall|i: int, j: int| 0 <= i < j < symbols.len() implies symbols[i]
            != symbols[j] by {
            assert(index[symbols[i]] == i);
            assert(index[symbols[j]] == j);
        }
    }

    /// A table without symbols.
    pub fn new() -> (r: Self)
        ensures
            r.wf(),
            r@ == Seq::<Seq<char>>::empty(),
    {
        let r = SymbolTable { lookup: Vec::new(), lookup_index: index_new() };
        assert(label_views(r.lookup@) =~= Seq::<Seq<char>>::empty());
        r
    }

    /// The number of symbols.
    pub fn len(&self) -> (r: usize)
        ensures
            r == self@.len(),
    {
        self.lookup.len()
    }

    /// The symbols in the order of their numbers.
    pub fn names(&self) -> (r: &Vec<String>)
        ensures
            label_views(r@) == self@,
    {
        &self.lookup
    }

    /// The number of the symbol `s`, if it has one.
    pub fn find(&self, s: &String) -> (r: Option<u32>)
        requires
            self.wf(),
        ensures
            match r {
                Some(number) => self@.contains(s@) && number == self@.index_of(s@) && number
                    < self@.len() && self@[number as int] == s@,
                None => !self@.contains(s@),
            },
    {
        let ghost symbols = label_views(self.lookup@);
        let ghost index = symbol_index(self.lookup_index);
        match index_get(&self.lookup_index, s) {
            Some(found) => {
                proof {
                    assert(index.contains_key(s@));
                    assert(symbols[found as int] == s@);
                    assert(symbols.contains(s@));
                    let i = symbols.index_of(s@);
                    assert(symbols[i] == s@);
                    assert(index[symbols[i]] == i);
                }
                Some(found)
            },
            None => {
                proof {
                    if symbols.contains(s@) {
                        let i = symbols.index_of(s@);
                        assert(index.contains_key(symbols[i]));
                    }
                }
                None
            },
        }
    }

    /// The number of the symbol `s`, which gets the next free number if it has none.
    pub fn intern(&mut self, s: String) -> (r: u32)
        requires
            old(self).wf(),
            old(self)@.len() <= u32::MAX,
        ensures
            final(self).wf(),
            (final(self)@, r as int) == interned(old(self)@, s@),
            r < final(self)@.len(),
            final(self)@[r as int] == s@,
            old(self)@.len() <= final(self)@.len() <= old(self)@.len() + 1,
            forall|i: int| 0 <= i < old(self)@.len() ==> final(self)@[i] == old(self)@[i],
    {
        let ghost symbols = label_views(self.lookup@);
        let ghost index = symbol_index(self.lookup_index);
        match self.find(&s) {
            Some(found) => found,
            None => {
                let number = self.lookup.len() as u32;
                self.lookup.push(s.clone());
                index_insert(&mut self.lookup_index, s, number);
                proof {
                    let after = label_views(self.lookup@);
                    assert(after =~= symbols.push(s@));
                    let index2 = symbol_index(self.lookup_index);
                    assert forall|i: int| 0 <= i < after.len() implies index2.contains_key(
                        #[trigger] after[i],
                    ) && index2[after[i]] == i by {
                        if i < symbols.len() {
                            assert(after[i] == symbols[i]);
                            assert(index.contains_key(symbols[i]));
                        }
                    }
                    assert forall|t: Seq<char>| #[trigger] index2.contains_key(t) implies 0
                        <= index2[t] < after.len() && after[index2[t] as int] == t by {
                        if t != s@ {
                            assert(index.contains_key(t));
                        }
                    }
                }
                number
            },
        }
    }
}

} // verus!
