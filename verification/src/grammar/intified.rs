//! A grammar whose non-terminals are numbered: its rules name their
//! non-terminals by number, and every rule has one weight.

use vstd::prelude::*;
use crate::grammar::rule::{Rule, RuleView, WeightedRule};
use crate::grammar::symbols::{interned, no_symbol_twice, SymbolTable};
use crate::grammar::weighted::{stored, GrammarWeighted, SymbolRule};
use crate::tree::label_views;

verus! {

/// A rule whose non-terminals are numbers, as a mathematical value.
pub type NumberRule = RuleView<u32, Seq<char>>;

/// What a numbered grammar holds: its non-terminals in the order of their
/// numbers, the number of the initial one, and its rules with their weights.
pub ghost struct IntifiedView<W> {
    pub symbols: Seq<Seq<char>>,
    pub initial: int,
    pub rules: Seq<(NumberRule, W)>,
}

/// The rule `rule` with the number of every non-terminal in its place.
pub open spec fn numbered(symbols: Seq<Seq<char>>, rule: SymbolRule) -> NumberRule {
    match rule {
        RuleView::Lexical { lhs, rhs } => RuleView::Lexical {
            lhs: symbols.index_of(lhs) as u32,
            rhs,
        },
        RuleView::NonLexical { lhs, rhs } => RuleView::NonLexical {
            lhs: symbols.index_of(lhs) as u32,
            rhs: Seq::new(rhs.len(), |i: int| symbols.index_of(rhs[i]) as u32),
        },
    }
}

/// Whether every non-terminal of the rule is among the symbols.
pub open spec fn names_known(symbols: Seq<Seq<char>>, rule: SymbolRule) -> bool {
    match rule {
        RuleView::Lexical { lhs, rhs } => symbols.contains(lhs),
        RuleView::NonLexical { lhs, rhs } => symbols.contains(lhs) && forall|i: int|
            0 <= i < rhs.len() ==> symbols.contains(#[trigger] rhs[i]),
    }
}

/// The symbols after the first `n` of `names` got their numbers, one after the other.
pub open spec fn interned_all(symbols: Seq<Seq<char>>, names: Seq<Seq<char>>, n: nat) -> Seq<
    Seq<char>,
>
    decreases n,
{
    if 0 < n <= names.len() {
        interned(interned_all(symbols, names, (n - 1) as nat), names[n - 1]).0
    } else {
        symbols
    }
}

/// The symbols after the non-terminals of a rule got their numbers: the
/// left side first, then those of the right side in order.
pub open spec fn with_names_of(symbols: Seq<Seq<char>>, rule: SymbolRule) -> Seq<Seq<char>> {
    match rule {
        RuleView::Lexical { lhs, rhs } => interned(symbols, lhs).0,
        RuleView::NonLexical { lhs, rhs } => interned_all(interned(symbols, lhs).0, rhs, rhs.len()),
    }
}

/// The number of non-terminals of a rule.
pub open spec fn names_in(rule: SymbolRule) -> nat {
    match rule {
        RuleView::Lexical { .. } => 1,
        RuleView::NonLexical { lhs, rhs } => 1 + rhs.len(),
    }
}

/// Whether `more` holds the symbols of `symbols` at their places, and no symbol twice.
pub open spec fn extends(symbols: Seq<Seq<char>>, more: Seq<Seq<char>>) -> bool {
    &&& symbols.len() <= more.len()
    &&& no_symbol_twice(more)
    &&& forall|i: int| 0 <= i < symbols.len() ==> more[i] == #[trigger] symbols[i]
}

/// A symbol keeps its number where symbols are added.
proof fn lemma_number_stays(symbols: Seq<Seq<char>>, more: Seq<Seq<char>>, s: Seq<char>)
    requires
        extends(symbols, more),
        symbols.contains(s),
    ensures
        more.contains(s),
        more.index_of(s) == symbols.index_of(s),
{
    let i = symbols.index_of(s);
    assert(symbols[i] == s);
    assert(more[i] == s);
    let j = more.index_of(s);
    assert(more[j] == s);
}

/// A rule keeps its numbers where symbols are added.
proof fn lemma_numbered_stays(symbols: Seq<Seq<char>>, more: Seq<Seq<char>>, rule: SymbolRule)
    requires
        extends(symbols, more),
        names_known(symbols, rule),
    ensures
        names_known(more, rule),
        numbered(more, rule) == numbered(symbols, rule),
{
    match rule {
        RuleView::Lexical { lhs, rhs } => {
            lemma_number_stays(symbols, more, lhs);
        },
        RuleView::NonLexical { lhs, rhs } => {
            lemma_number_stays(symbols, more, lhs);
            assert forall|i: int| 0 <= i < rhs.len() implies more.contains(#[trigger] rhs[i])
                && more.index_of(rhs[i]) == symbols.index_of(rhs[i]) by {
                lemma_number_stays(symbols, more, rhs[i]);
            }
            assert(Seq::new(rhs.len(), |i: int| more.index_of(rhs[i]) as u32) =~= Seq::new(
                rhs.len(),
                |i: int| symbols.index_of(rhs[i]) as u32,
            ));
        },
    }
}

/// A grammar with numbered non-terminals.
pub struct GrammarIntified<W> {
    initial_nonterminal: u32,
    symbols: SymbolTable,
    named: GrammarWeighted<W>,
    numbered: Vec<Rule<u32, String>>,
}

impl<W> GrammarIntified<W> {
    /// The rules by the symbols of their non-terminals, with their
    /// weights, in the order in which they came.
    pub closed spec fn source_rules(self) -> Seq<(SymbolRule, W)> {
        self.named.rules()
    }

    /// The non-terminals in the order of their numbers.
    pub closed spec fn symbols(self) -> Seq<Seq<char>> {
        self.symbols@
    }

    /// The number of the initial non-terminal.
    pub closed spec fn initial(self) -> int {
        self.initial_nonterminal as int
    }

    /// The rules with numbers for their non-terminals, as they are held.
    pub closed spec fn held_rules(self) -> Seq<NumberRule> {
        Seq::new(self.numbered@.len(), |i: int| self.numbered@[i]@)
    }

    /// What the grammar holds.
    pub open spec fn view(self) -> IntifiedView<W> {
        IntifiedView {
            symbols: self.symbols(),
            initial: self.initial(),
            rules: Seq::new(
                self.source_rules().len(),
                |i: int|
                    (numbered(self.symbols(), self.source_rules()[i].0), self.source_rules()[i].1),
            ),
        }
    }

    /// The symbols are numbered, the initial one is among them, and the
    /// rules are held with the numbers of their non-terminals.
    pub closed spec fn wf(self) -> bool {
        &&& self.symbols.wf()
        &&& self.named.wf()
        &&& self.initial_nonterminal < self.symbols@.len()
        &&& self.numbered@.len() == self.named.rules().len()
        &&& forall|i: int|
            0 <= i < self.numbered@.len() ==> names_known(
                self.symbols@,
                (#[trigger] self.named.rules()[i]).0,
            ) && self.numbered@[i]@ == numbered(self.symbols@, self.named.rules()[i].0)
    }

    /// In a well-formed grammar the rules that are held are the rules of the view.
    pub proof fn lemma_wf(self)
        requires
            self.wf(),
        ensures
            self.held_rules().len() == self.view().rules.len(),
            forall|i: int|
                0 <= i < self.held_rules().len() ==> #[trigger] self.held_rules()[i]
                    == self.view().rules[i].0,
            0 <= self.initial() < self.symbols().len(),
            no_symbol_twice(self.symbols()),
    {
        self.symbols.lemma_wf();
        assert forall|i: int| 0 <= i < self.held_rules().len() implies #[trigger] self.held_rules()[i]
            == self.view().rules[i].0 by {
            assert(self.numbered@[i]@ == numbered(self.symbols@, self.named.rules()[i].0));
        }
    }

    /// A grammar without rules whose initial non-terminal is `initial_nonterminal`.
    pub fn new(initial_nonterminal: String) -> (r: Self)
        ensures
            r.wf(),
            r.symbols() == seq![initial_nonterminal@],
            r.initial() == 0,
            r.source_rules() == Seq::<(SymbolRule, W)>::empty(),
    {
        let mut symbols = SymbolTable::new();
        let initial = symbols.intern(initial_nonterminal);
        let r = GrammarIntified {
            initial_nonterminal: initial,
            symbols,
            named: GrammarWeighted::new(),
            numbered: Vec::new(),
        };
        proof {
            assert(r.symbols@ =~= seq![initial_nonterminal@]);
        }
        r
    }

    /// The non-terminals, in the order of their numbers.
    pub fn lookup(&self) -> (r: &Vec<String>)
        ensures
            label_views(r@) == self.symbols(),
    {
        self.symbols.names()
    }

    /// The number of the initial non-terminal.
    pub fn initial_nonterminal(&self) -> (r: u32)
        ensures
            r == self.initial(),
    {
        self.initial_nonterminal
    }

    /// The rules with numbers for their non-terminals, in the order in which they came.
    pub fn rules(&self) -> (r: &Vec<Rule<u32, String>>)
        ensures
            r@.len() == self.held_rules().len(),
            forall|i: int| 0 <= i < r@.len() ==> (#[trigger] r@[i])@ == self.held_rules()[i],
    {
        &self.numbered
    }

    /// The rules by the symbols of their non-terminals, with their weights.
    pub fn weighted(&self) -> (r: &GrammarWeighted<W>)
        ensures
            r.rules() == self.source_rules(),
            self.wf() ==> r.wf(),
    {
        &self.named
    }

    /// Adds a rule to the grammar, or gives a rule that is there a new
    /// weight. The non-terminals of the rule get numbers, the left side first.
    pub fn insert_rule(&mut self, weighted_rule: WeightedRule<String, String, W>)
        requires
            old(self).wf(),
            old(self).symbols().len() + names_in(weighted_rule.rule@) <= u32::MAX,
        ensures
            final(self).wf(),
            final(self).symbols() == with_names_of(old(self).symbols(), weighted_rule.rule@),
            final(self).initial() == old(self).initial(),
            final(self).source_rules() == stored(
                old(self).source_rules(),
                weighted_rule.rule@,
                weighted_rule.weight,
            ),
    {
        let ghost symbols0 = self.symbols@;
        let ghost named0 = self.named.rules();
        let ghost numbered0 = self.numbered@;
        let ghost rule = weighted_rule.rule@;
        proof {
            self.symbols.lemma_wf();
            assert(numbered0.len() == named0.len());
        }
        let number_rule = match &weighted_rule.rule {
            Rule::Lexical { lhs, rhs } => {
                let a = self.symbols.intern(lhs.clone());
                proof {
                    self.symbols.lemma_wf();
                    let j = self.symbols@.index_of(lhs@);
                    assert(self.symbols@[j] == lhs@);
                }
                Rule::Lexical { lhs: a, rhs: rhs.clone() }
            },
            Rule::NonLexical { lhs, rhs } => {
                let a = self.symbols.intern(lhs.clone());
                let ghost symbols1 = self.symbols@;
                proof {
                    self.symbols.lemma_wf();
                }
                let mut numbers: Vec<u32> = Vec::new();
                let mut k: usize = 0;
                while k < rhs.len()
                    invariant
                        k <= rhs.len(),
                        numbers@.len() == k,
                        self.named == old(self).named,
                        self.numbered == old(self).numbered,
                        self.initial_nonterminal == old(self).initial_nonterminal,
                        self.symbols.wf(),
                        symbols0.len() <= self.symbols@.len() <= symbols0.len() + 1 + k,
                        symbols0.len() + 1 + rhs@.len() <= u32::MAX,
                        extends(symbols0, self.symbols@),
                        extends(symbols1, self.symbols@),
                        self.symbols@ == interned_all(symbols1, label_views(rhs@), k as nat),
                        forall|i: int|
                            0 <= i < k ==> self.symbols@.contains(#[trigger] label_views(rhs@)[i])
                                && numbers@[i] == self.symbols@.index_of(label_views(rhs@)[i]),
                    decreases rhs.len() - k,
                {
                    let ghost before = self.symbols@;
                    let b = self.symbols.intern(rhs[k].clone());
                    proof {
                        self.symbols.lemma_wf();
                        let now = self.symbols@;
                        assert(label_views(rhs@)[k as int] == rhs@[k as int]@);
                        assert(extends(before, now));
                        let j = now.index_of(rhs@[k as int]@);
                        assert(now[j] == rhs@[k as int]@);
                        assert forall|i: int| 0 <= i < k implies now.contains(
                            #[trigger] label_views(rhs@)[i],
                        ) && numbers@[i] == now.index_of(label_views(rhs@)[i]) by {
                            lemma_number_stays(before, now, label_views(rhs@)[i]);
                        }
                    }
                    numbers.push(b);
                    k += 1;
                }
                proof {
                    let now = self.symbols@;
                    lemma_number_stays(symbols1, now, lhs@);
                    assert(numbers@ =~= Seq::new(
                        label_views(rhs@).len(),
                        |i: int| now.index_of(label_views(rhs@)[i]) as u32,
                    ));
                }
                Rule::NonLexical { lhs: a, rhs: numbers }
            },
        };
        proof {
            assert(extends(symbols0, self.symbols@));
            assert(names_known(self.symbols@, rule));
            assert(number_rule@ == numbered(self.symbols@, rule)) by {
                match rule {
                    RuleView::NonLexical { lhs, rhs } => {
                        assert(number_rule@->NonLexical_rhs =~= numbered(
                            self.symbols@,
                            rule,
                        )->NonLexical_rhs);
                    },
                    _ => {},
                }
            }
        }
        let at = self.named.set(weighted_rule.rule, weighted_rule.weight);
        assert(self.numbered@ == numbered0);
        if at == self.numbered.len() {
            self.numbered.push(number_rule);
        }
        proof {
            let now = self.symbols@;
            let named1 = self.named.rules();
            assert(named1 == stored(named0, rule, weighted_rule.weight));
            assert(self.numbered@.len() == named1.len());
            assert forall|i: int| 0 <= i < self.numbered@.len() implies names_known(
                now,
                (#[trigger] named1[i]).0,
            ) && self.numbered@[i]@ == numbered(now, named1[i].0) by {
                if i == at {
                    assert(named1[i].0 == rule);
                    if at < named0.len() {
                        assert(named0[i].0 == rule);
                        assert(self.numbered@[i] == numbered0[i]);
                        assert(names_known(symbols0, named0[i].0) && numbered0[i]@ == numbered(
                            symbols0,
                            named0[i].0,
                        ));
                        lemma_numbered_stays(symbols0, now, rule);
                    }
                } else {
                    assert(named1[i] == named0[i]);
                    assert(self.numbered@[i] == numbered0[i]);
                    assert(names_known(symbols0, named0[i].0) && numbered0[i]@ == numbered(
                        symbols0,
                        named0[i].0,
                    ));
                    lemma_numbered_stays(symbols0, now, named0[i].0);
                }
            }
        }
    }
}

} // verus!
