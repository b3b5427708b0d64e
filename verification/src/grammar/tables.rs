//! The hash tables of a grammar that is ready for decoding, and what is
//! assumed of them: `MultiMap` of the crate `multimap` and `FxHashMap` of the
//! crate `fxhash`, each behind a few functions whose contracts say over a
//! mathematical map what the table holds.

use vstd::prelude::*;
use std::collections::HashMap;
use std::hash::BuildHasherDefault;
use fxhash::FxHasher;
use multimap::MultiMap;
use crate::grammar::rule::{Rule, RuleView};

verus! {

#[verifier::external_type_specification]
#[verifier::external_body]
pub struct ExFxHasher(FxHasher);

#[verifier::external_type_specification]
#[verifier::external_body]
#[verifier::reject_recursive_types(H)]
pub struct ExBuildHasherDefault<H>(BuildHasherDefault<H>);

#[verifier::external_type_specification]
#[verifier::external_body]
#[verifier::reject_recursive_types(K)]
#[verifier::reject_recursive_types(V)]
#[verifier::reject_recursive_types(S)]
pub struct ExMultiMap<K, V, S>(MultiMap<K, V, S>);

/// Lexical rules by their word: each entry is a non-terminal's number and the rule's weight.
pub type LexicalRules = MultiMap<String, (u32, u64), BuildHasherDefault<FxHasher>>;

/// Rules with one non-terminal on the right, by that non-terminal: each
/// entry is the number of the non-terminal on the left and the rule's weight.
pub type ChainRules = MultiMap<u32, (u32, u64), BuildHasherDefault<FxHasher>>;

/// Rules with two non-terminals on the right, by the non-terminal on the
/// left: each entry is the two on the right and the rule's weight.
pub type BinaryRules = MultiMap<u32, (u32, u32, u64), BuildHasherDefault<FxHasher>>;

/// The numbers of the non-terminals, by their symbol.
pub type SymbolIndex = HashMap<String, u32, BuildHasherDefault<FxHasher>>;

/// The places of the rules of a grammar, by the rule.
pub type RuleIndex = HashMap<Rule<String, String>, usize, BuildHasherDefault<FxHasher>>;

/// What a rule index holds. Two rules are one key where their symbols have
/// the same text, which is how the derived equality of rules compares them.
pub uninterp spec fn rule_index(m: RuleIndex) -> Map<RuleView<Seq<char>, Seq<char>>, usize>;

/// What a table of lexical rules holds: for each word that has entries, the
/// entries in the order in which they were inserted.
pub uninterp spec fn lexical_rules(m: LexicalRules) -> Map<Seq<char>, Seq<(u32, u64)>>;

/// What a table of chain rules holds.
pub uninterp spec fn chain_rules(m: ChainRules) -> Map<u32, Seq<(u32, u64)>>;

/// What a table of binary rules holds.
pub uninterp spec fn binary_rules(m: BinaryRules) -> Map<u32, Seq<(u32, u32, u64)>>;

/// What a symbol index holds.
pub uninterp spec fn symbol_index(m: SymbolIndex) -> Map<Seq<char>, u32>;

/// `old` with `v` added behind the entries of `k`.
pub open spec fn with_entry<K, V>(old: Map<K, Seq<V>>, k: K, v: V) -> Map<K, Seq<V>> {
    if old.contains_key(k) {
        old.insert(k, old[k].push(v))
    } else {
        old.insert(k, seq![v])
    }
}

/// Calls `MultiMap::default`, which makes a table without entries.
#[verifier::external_body]
pub(crate) fn lexical_new() -> (m: LexicalRules)
    ensures
        lexical_rules(m) == (Map::<Seq<char>, Seq<(u32, u64)>>::empty()),
{
    MultiMap::default()
}

/// Calls `MultiMap::insert`: where the key has entries the value is pushed
/// behind them, else the key gets the value as its only entry. No other key changes.
#[verifier::external_body]
pub(crate) fn lexical_insert(m: &mut LexicalRules, k: String, v: (u32, u64))
    ensures
        lexical_rules(*final(m)) == with_entry(lexical_rules(*old(m)), k@, v),
{
    m.insert(k, v)
}

/// Calls `MultiMap::get_vec`: the entries of the key, or nothing where the key has none.
#[verifier::external_body]
pub(crate) fn lexical_get<'a>(m: &'a LexicalRules, k: &String) -> (r: Option<&'a Vec<(u32, u64)>>)
    ensures
        match r {
            Some(v) => lexical_rules(*m).contains_key(k@) && v@ == lexical_rules(*m)[k@],
            None => !lexical_rules(*m).contains_key(k@),
        },
{
    m.get_vec(k)
}

/// Calls `MultiMap::default`, which makes a table without entries.
#[verifier::external_body]
pub(crate) fn chain_new() -> (m: ChainRules)
    ensures
        chain_rules(m) == (Map::<u32, Seq<(u32, u64)>>::empty()),
{
    MultiMap::default()
}

/// Calls `MultiMap::insert`: where the key has entries the value is pushed
/// behind them, else the key gets the value as its only entry. No other key changes.
#[verifier::external_body]
pub(crate) fn chain_insert(m: &mut ChainRules, k: u32, v: (u32, u64))
    ensures
        chain_rules(*final(m)) == with_entry(chain_rules(*old(m)), k, v),
{
    m.insert(k, v)
}

/// Calls `MultiMap::get_vec`: the entries of the key, or nothing where the key has none.
#[verifier::external_body]
pub(crate) fn chain_get<'a>(m: &'a ChainRules, k: u32) -> (r: Option<&'a Vec<(u32, u64)>>)
    ensures
        match r {
            Some(v) => chain_rules(*m).contains_key(k) && v@ == chain_rules(*m)[k],
            None => !chain_rules(*m).contains_key(k),
        },
{
    m.get_vec(&k)
}

/// Calls `MultiMap::default`, which makes a table without entries.
#[verifier::external_body]
pub(crate) fn binary_new() -> (m: BinaryRules)
    ensures
        binary_rules(m) == (Map::<u32, Seq<(u32, u32, u64)>>::empty()),
{
    MultiMap::default()
}

/// Calls `MultiMap::insert`: where the key has entries the value is pushed
/// behind them, else the key gets the value as its only entry. No other key changes.
#[verifier::external_body]
pub(crate) fn binary_insert(m: &mut BinaryRules, k: u32, v: (u32, u32, u64))
    ensures
        binary_rules(*final(m)) == with_entry(binary_rules(*old(m)), k, v),
{
    m.insert(k, v)
}

/// Calls `MultiMap::get_vec`: the entries of the key, or nothing where the key has none.
#[verifier::external_body]
pub(crate) fn binary_get<'a>(m: &'a BinaryRules, k: u32) -> (r: Option<&'a Vec<(u32, u32, u64)>>)
    ensures
        match r {
            Some(v) => binary_rules(*m).contains_key(k) && v@ == binary_rules(*m)[k],
            None => !binary_rules(*m).contains_key(k),
        },
{
    m.get_vec(&k)
}

/// Calls `FxHashMap::default`, which makes a map without keys.
#[verifier::external_body]
pub(crate) fn index_new() -> (m: SymbolIndex)
    ensures
        symbol_index(m) == (Map::<Seq<char>, u32>::empty()),
{
    HashMap::default()
}

/// Calls `HashMap::insert` on an `FxHashMap`: the key holds the value afterwards, and no other key changes.
#[verifier::external_body]
pub(crate) fn index_insert(m: &mut SymbolIndex, k: String, v: u32)
    ensures
        symbol_index(*final(m)) == symbol_index(*old(m)).insert(k@, v),
{
    m.insert(k, v);
}

/// Calls `HashMap::get` on an `FxHashMap`: the value of the key, or nothing where the map lacks the key.
#[verifier::external_body]
pub(crate) fn index_get(m: &SymbolIndex, k: &String) -> (r: Option<u32>)
    ensures
        r == (if symbol_index(*m).contains_key(k@) {
            Some(symbol_index(*m)[k@])
        } else {
            None::<u32>
        }),
{
    m.get(k).copied()
}

/// Calls `FxHashMap::default`, which makes a map without keys.
#[verifier::external_body]
pub(crate) fn rule_index_new() -> (m: RuleIndex)
    ensures
        rule_index(m) == (Map::<RuleView<Seq<char>, Seq<char>>, usize>::empty()),
{
    HashMap::default()
}

/// Calls `HashMap::insert` on an `FxHashMap`: the key holds the value afterwards, and no other key changes.
#[verifier::external_body]
pub(crate) fn rule_index_insert(m: &mut RuleIndex, k: Rule<String, String>, v: usize)
    ensures
        rule_index(*final(m)) == rule_index(*old(m)).insert(k@, v),
{
    m.insert(k, v);
}

/// Calls `HashMap::get` on an `FxHashMap`: the value of the key, or nothing where the map lacks the key.
#[verifier::external_body]
pub(crate) fn rule_index_get(m: &RuleIndex, k: &Rule<String, String>) -> (r: Option<usize>)
    ensures
        r == (if rule_index(*m).contains_key(k@) {
            Some(rule_index(*m)[k@])
        } else {
            None::<usize>
        }),
{
    m.get(k).copied()
}

} // verus!
