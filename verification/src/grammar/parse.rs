//! A grammar that is ready for decoding: its non-terminals are numbered and
//! its rules are indexed by what the decoder looks them up with.

use vstd::prelude::*;
use crate::grammar::rule::{Rule, RuleView, WeightedRule};
use crate::grammar::symbols::{interned, SymbolTable};
use crate::grammar::tables::{
    binary_get, binary_insert, binary_new, binary_rules, chain_get, chain_insert, chain_new,
    chain_rules, lexical_get, lexical_insert, lexical_new, lexical_rules, with_entry, BinaryRules,
    ChainRules, LexicalRules,
};
use crate::tree::label_views;

verus! {

/// What a grammar holds: its non-terminals in the order of their numbers,
/// the number of the initial one, and its rules as the decoder finds them.
pub ghost struct GrammarView {
    pub symbols: Seq<Seq<char>>,
    pub initial: int,
    /// By word: the non-terminals that yield the word, with the rules' weights.
    pub lexicon: Map<Seq<char>, Seq<(u32, u64)>>,
    /// By the non-terminal on the right: the non-terminals that yield it alone.
    pub chains: Map<u32, Seq<(u32, u64)>>,
    /// By the non-terminal on the left: the pairs that it yields.
    pub binaries: Map<u32, Seq<(u32, u32, u64)>>,
}

impl GrammarView {
    /// Every number in a rule is the number of a non-terminal.
    pub open spec fn numbers_in_range(self) -> bool {
        &&& 0 <= self.initial < self.symbols.len()
        &&& forall|w: Seq<char>, j: int|
            self.lexicon.contains_key(w) && 0 <= j < self.lexicon[w].len() ==> (
            #[trigger] self.lexicon[w][j]).0 < self.symbols.len()
        &&& forall|b: u32, j: int|
            self.chains.contains_key(b) && 0 <= j < self.chains[b].len() ==> (
            #[trigger] self.chains[b][j]).0 < self.symbols.len()
        &&& forall|a: u32, j: int|
            self.binaries.contains_key(a) && 0 <= j < self.binaries[a].len() ==> (
            #[trigger] self.binaries[a][j]).0 < self.symbols.len() && self.binaries[a][j].1
                < self.symbols.len()
    }

    /// The grammar with one more rule. The non-terminals of the rule get
    /// numbers in the order in which the rule names them, the left one
    /// first. The rule goes behind the rules with the same key.
    pub open spec fn with_rule(self, rule: RuleView<Seq<char>, Seq<char>>, weight: u64) -> GrammarView {
        match rule {
            RuleView::Lexical { lhs, rhs } => {
                let (s1, a) = interned(self.symbols, lhs);
                GrammarView {
                    symbols: s1,
                    lexicon: with_entry(self.lexicon, rhs, (a as u32, weight)),
                    ..self
                }
            },
            RuleView::NonLexical { lhs, rhs } => {
                let (s1, a) = interned(self.symbols, lhs);
                if rhs.len() == 1 {
                    let (s2, b) = interned(s1, rhs[0]);
                    GrammarView {
                        symbols: s2,
                        chains: with_entry(self.chains, b as u32, (a as u32, weight)),
                        ..self
                    }
                } else {
                    let (s2, b) = interned(s1, rhs[0]);
                    let (s3, c) = interned(s2, rhs[1]);
                    GrammarView {
                        symbols: s3,
                        binaries: with_entry(
                            self.binaries,
                            a as u32,
                            (b as u32, c as u32, weight),
                        ),
                        ..self
                    }
                }
            },
        }
    }
}

/// Whether the decoder can take the rule: a rule of non-terminals has one or two on its right.
pub open spec fn is_binarized(rule: RuleView<Seq<char>, Seq<char>>) -> bool {
    match rule {
        RuleView::Lexical { .. } => true,
        RuleView::NonLexical { lhs, rhs } => rhs.len() == 1 || rhs.len() == 2,
    }
}

/// A grammar for deriving the most probable constituent tree of a sentence.
pub struct GrammarParse {
    initial_nonterminal: u32,
    rules_lexical: LexicalRules,
    rules_chain: ChainRules,
    rules_double: BinaryRules,
    symbols: SymbolTable,
}

impl View for GrammarParse {
    type V = GrammarView;

    closed spec fn view(&self) -> GrammarView {
        GrammarView {
            symbols: self.symbols@,
            initial: self.initial_nonterminal as int,
            lexicon: lexical_rules(self.rules_lexical),
            chains: chain_rules(self.rules_chain),
            binaries: binary_rules(self.rules_double),
        }
    }
}

impl GrammarParse {
    /// The non-terminals are numbered, the initial one is among them, and
    /// the numbers in the rules are in range.
    pub closed spec fn wf(self) -> bool {
        &&& self.symbols.wf()
        &&& 1 <= self.symbols@.len()
        &&& self@.numbers_in_range()
    }

    /// What follows from well-formedness for callers.
    pub proof fn lemma_wf(self)
        requires
            self.wf(),
        ensures
            self@.numbers_in_range(),
            1 <= self@.symbols.len() <= u32::MAX + 1,
    {
        self.symbols.lemma_wf();
    }

    /// A grammar without rules whose initial non-terminal is `initial_nonterminal`.
    pub fn new(initial_nonterminal: String) -> (r: Self)
        ensures
            r.wf(),
            r@.symbols == seq![initial_nonterminal@],
            r@.initial == 0,
            r@.lexicon == Map::<Seq<char>, Seq<(u32, u64)>>::empty(),
            r@.chains == Map::<u32, Seq<(u32, u64)>>::empty(),
            r@.binaries == Map::<u32, Seq<(u32, u32, u64)>>::empty(),
    {
        let mut symbols = SymbolTable::new();
        let initial = symbols.intern(initial_nonterminal);
        let r = GrammarParse {
            initial_nonterminal: initial,
            rules_lexical: lexical_new(),
            rules_chain: chain_new(),
            rules_double: binary_new(),
            symbols,
        };
        proof {
            assert(r@.symbols =~= seq![initial_nonterminal@]);
        }
        r
    }

    /// The number of non-terminals.
    pub fn num_nonterminals(&self) -> (r: usize)
        ensures
            r == self@.symbols.len(),
    {
        self.symbols.len()
    }

    /// The number of the initial non-terminal.
    pub fn initial_nonterminal(&self) -> (r: u32)
        ensures
            r == self@.initial,
    {
        self.initial_nonterminal
    }

    /// The non-terminals, in the order of their numbers.
    pub fn lookup(&self) -> (r: &Vec<String>)
        ensures
            label_views(r@) == self@.symbols,
    {
        self.symbols.names()
    }

    /// The lexical rules, by their word.
    pub fn rules_lexical(&self) -> (r: &LexicalRules)
        ensures
            lexical_rules(*r) == self@.lexicon,
    {
        &self.rules_lexical
    }

    /// The rules that yield the non-terminal `b` alone.
    pub fn chains_for(&self, b: u32) -> (r: Option<&Vec<(u32, u64)>>)
        ensures
            match r {
                Some(v) => self@.chains.contains_key(b) && v@ == self@.chains[b],
                None => !self@.chains.contains_key(b),
            },
    {
        chain_get(&self.rules_chain, b)
    }

    /// The rules by which the non-terminal `a` yields two non-terminals.
    pub fn binaries_for(&self, a: u32) -> (r: Option<&Vec<(u32, u32, u64)>>)
        ensures
            match r {
                Some(v) => self@.binaries.contains_key(a) && v@ == self@.binaries[a],
                None => !self@.binaries.contains_key(a),
            },
    {
        binary_get(&self.rules_double, a)
    }

    /// The rules that yield the word `w`.
    pub fn lexicals_for(&self, w: &String) -> (r: Option<&Vec<(u32, u64)>>)
        ensures
            match r {
                Some(v) => self@.lexicon.contains_key(w@) && v@ == self@.lexicon[w@],
                None => !self@.lexicon.contains_key(w@),
            },
    {
        lexical_get(&self.rules_lexical, w)
    }

    /// The number of the non-terminal `n`, which gets the next free number if it has none.
    fn intify(&mut self, n: String) -> (r: u32)
        requires
            old(self).wf(),
            old(self)@.symbols.len() <= u32::MAX,
        ensures
            final(self).wf(),
            (final(self)@.symbols, r as int) == interned(old(self)@.symbols, n@),
            final(self)@.initial == old(self)@.initial,
            final(self)@.lexicon == old(self)@.lexicon,
            final(self)@.chains == old(self)@.chains,
            final(self)@.binaries == old(self)@.binaries,
            r < final(self)@.symbols.len(),
            old(self)@.symbols.len() <= final(self)@.symbols.len() <= old(self)@.symbols.len() + 1,
    {
        proof {
            self.symbols.lemma_wf();
            assert(self@.numbers_in_range());
        }
        let r = self.symbols.intern(n);
        proof {
            assert(self@.lexicon == old(self)@.lexicon);
            assert(self@.chains == old(self)@.chains);
            assert(self@.binaries == old(self)@.binaries);
            assert(self@.numbers_in_range());
        }
        r
    }

    /// Adds a rule to the grammar.
    pub fn insert_rule(&mut self, weighted_rule: WeightedRule<String, String, u64>)
        requires
            old(self).wf(),
            is_binarized(weighted_rule.rule@),
            old(self)@.symbols.len() + 3 <= u32::MAX,
        ensures
            final(self).wf(),
            final(self)@ == old(self)@.with_rule(weighted_rule.rule@, weighted_rule.weight),
    {
        let weight = weighted_rule.weight;
        match weighted_rule.rule {
            Rule::Lexical { lhs, rhs } => {
                let a = self.intify(lhs);
                lexical_insert(&mut self.rules_lexical, rhs, (a, weight));
            },
            Rule::NonLexical { lhs, rhs } => {
                let a = self.intify(lhs);
                if rhs.len() == 1 {
                    let b = self.intify(rhs[0].clone());
                    chain_insert(&mut self.rules_chain, b, (a, weight));
                } else {
                    let b = self.intify(rhs[0].clone());
                    let c = self.intify(rhs[1].clone());
                    binary_insert(&mut self.rules_double, a, (b, c, weight));
                }
            },
        }
    }
}

} // verus!
