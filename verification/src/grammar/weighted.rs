//! Grammars as rules with weights: the rules counted in trees, and the same
//! rules with their share among the rules of their left side.

use vstd::prelude::*;
use crate::grammar::rule::{Rule, RuleView, WeightedRule};
use crate::grammar::symbols::SymbolTable;
use crate::grammar::tables::{
    rule_index, rule_index_get, rule_index_insert, rule_index_new, RuleIndex,
};
use crate::tree::{label_views, lemma_tree_view, Tree, TreeView};

verus! {

/// A rule over symbols, as a mathematical value.
pub type SymbolRule = RuleView<Seq<char>, Seq<char>>;

/// The share of a rule among the rules with the same left side: how often
/// the rule was counted, and how often all of them together.
#[derive(Copy, Clone, PartialEq, Eq, Debug)]
pub struct Ratio {
    pub count: u32,
    pub total: u128,
}

/// The place of the rule `r` among `rules`, if it is there.
pub open spec fn place_of<W>(rules: Seq<(SymbolRule, W)>, r: SymbolRule) -> Option<int> {
    if exists|i: int| 0 <= i < rules.len() && (#[trigger] rules[i]).0 == r {
        Some(choose|i: int| 0 <= i < rules.len() && (#[trigger] rules[i]).0 == r)
    } else {
        None
    }
}

/// The rules after `r` got the weight `w`: where it is there its weight
/// is replaced, else it goes behind the other rules.
pub open spec fn stored<W>(rules: Seq<(SymbolRule, W)>, r: SymbolRule, w: W) -> Seq<(SymbolRule, W)> {
    match place_of(rules, r) {
        Some(i) => rules.update(i, (r, w)),
        None => rules.push((r, w)),
    }
}

/// Whether no rule occurs twice in `rules`.
pub open spec fn no_rule_twice<W>(rules: Seq<(SymbolRule, W)>) -> bool {
    forall|i: int, j: int|
        0 <= i < j < rules.len() ==> (#[trigger] rules[i]).0 != (#[trigger] rules[j]).0
}

/// How often the rule `r` is counted in `rules`.
pub open spec fn count_in(rules: Seq<(SymbolRule, u32)>, r: SymbolRule) -> nat
    decreases rules.len(),
{
    if rules.len() == 0 {
        0
    } else {
        count_in(rules.drop_last(), r) + (if rules.last().0 == r {
            rules.last().1 as nat
        } else {
            0
        })
    }
}

/// The counts after `r` was counted `w` more times: its count grows where
/// it is there, else it goes behind the other rules.
pub open spec fn recorded(rules: Seq<(SymbolRule, u32)>, r: SymbolRule, w: u32) -> Seq<
    (SymbolRule, u32),
> {
    match place_of(rules, r) {
        Some(i) => rules.update(i, (r, (rules[i].1 + w) as u32)),
        None => rules.push((r, w)),
    }
}

/// The counts `a` after the counts `b` were added, rule by rule.
pub open spec fn absorbed(a: Seq<(SymbolRule, u32)>, b: Seq<(SymbolRule, u32)>) -> Seq<
    (SymbolRule, u32),
>
    decreases b.len(),
{
    if b.len() == 0 {
        a
    } else {
        recorded(absorbed(a, b.drop_last()), b.last().0, b.last().1)
    }
}

/// Whether the counts `b` can be added to the counts `a` without a count
/// growing above what `u32` holds.
pub open spec fn counts_fit(a: Seq<(SymbolRule, u32)>, b: Seq<(SymbolRule, u32)>) -> bool {
    forall|r: SymbolRule| count_in(a, r) + #[trigger] count_in(b, r) <= u32::MAX
}

/// The rule that a node of a tree stands for: none for a leaf; a lexical
/// rule for a node over one leaf; else the rule from the node's label to
/// the labels of its subtrees.
pub open spec fn node_rule(t: TreeView<Seq<char>>) -> Option<SymbolRule> {
    if t.children.len() == 0 {
        None
    } else if t.children.len() == 1 && t.children[0].children.len() == 0 {
        Some(RuleView::Lexical { lhs: t.root, rhs: t.children[0].root })
    } else {
        Some(
            RuleView::NonLexical {
                lhs: t.root,
                rhs: Seq::new(t.children.len(), |i: int| t.children[i].root),
            },
        )
    }
}

/// The counts `start` after the rules of the first `n` subtrees of `t` were counted.
pub open spec fn counted_upto(start: Seq<(SymbolRule, u32)>, t: TreeView<Seq<char>>, n: nat) -> Seq<
    (SymbolRule, u32),
>
    decreases t, n,
{
    if 0 < n <= t.children.len() {
        counted(counted_upto(start, t, (n - 1) as nat), t.children[n - 1])
    } else {
        start
    }
}

/// The counts `start` after the rules of `t` were counted: the rule of the
/// root first, then those of the subtrees from left to right.
pub open spec fn counted(start: Seq<(SymbolRule, u32)>, t: TreeView<Seq<char>>) -> Seq<
    (SymbolRule, u32),
>
    decreases t, t.children.len() + 1,
{
    let first = match node_rule(t) {
        Some(r) => recorded(start, r, 1),
        None => start,
    };
    counted_upto(first, t, t.children.len())
}

/// How often the rule `r` occurs in the tree `t`.
pub open spec fn occurrences(t: TreeView<Seq<char>>, r: SymbolRule) -> nat
    decreases t, t.children.len() + 1,
{
    (if node_rule(t) == Some(r) {
        1nat
    } else {
        0nat
    }) + occurrences_upto(t, t.children.len(), r)
}

/// How often the rule `r` occurs in the first `n` subtrees of `t`.
pub open spec fn occurrences_upto(t: TreeView<Seq<char>>, n: nat, r: SymbolRule) -> nat
    decreases t, n,
{
    if 0 < n <= t.children.len() {
        occurrences_upto(t, (n - 1) as nat, r) + occurrences(t.children[n - 1], r)
    } else {
        0
    }
}

/// Whether the rules of `t` can be counted on top of `start` without a
/// count growing above what `u32` holds.
pub open spec fn tree_fits(start: Seq<(SymbolRule, u32)>, t: TreeView<Seq<char>>) -> bool {
    forall|r: SymbolRule| count_in(start, r) + #[trigger] occurrences(t, r) <= u32::MAX
}

/// Whether the rules of the first `n` subtrees of `t` can be counted on top of `start`.
pub open spec fn forest_fits(start: Seq<(SymbolRule, u32)>, t: TreeView<Seq<char>>, n: nat) -> bool {
    forall|r: SymbolRule| count_in(start, r) + #[trigger] occurrences_upto(t, n, r) <= u32::MAX
}

/// What counting does to the counts: `after` holds no rule twice, and
/// every rule's count in it is its count in `start` and `more`.
pub open spec fn counts_grew(
    start: Seq<(SymbolRule, u32)>,
    after: Seq<(SymbolRule, u32)>,
    more: spec_fn(SymbolRule) -> nat,
) -> bool {
    &&& no_rule_twice(after)
    &&& forall|r: SymbolRule| #[trigger] count_in(after, r) == count_in(start, r) + more(r)
}

/// The sum of the counts of the first `n` of `rules` with the left side `lhs`.
pub open spec fn lhs_total(rules: Seq<(SymbolRule, u32)>, lhs: Seq<char>, n: int) -> nat
    decreases n,
{
    if 0 < n <= rules.len() {
        lhs_total(rules, lhs, n - 1) + (if rules[n - 1].0.lhs() == lhs {
            rules[n - 1].1 as nat
        } else {
            0
        })
    } else {
        0
    }
}

/// The rules of `rules`, each with its share among the rules of its left side.
pub open spec fn normalised(rules: Seq<(SymbolRule, u32)>) -> Seq<(SymbolRule, Ratio)> {
    Seq::new(
        rules.len(),
        |i: int|
            (
                rules[i].0,
                Ratio {
                    count: rules[i].1,
                    total: lhs_total(rules, rules[i].0.lhs(), rules.len() as int) as u128,
                },
            ),
    )
}

/// The sum of the counts in the shares of the first `n` of `weights` with the left side `lhs`.
pub open spec fn share_sum(weights: Seq<(SymbolRule, Ratio)>, lhs: Seq<char>, n: int) -> nat
    decreases n,
{
    if 0 < n <= weights.len() {
        share_sum(weights, lhs, n - 1) + (if weights[n - 1].0.lhs() == lhs {
            weights[n - 1].1.count as nat
        } else {
            0
        })
    } else {
        0
    }
}

/// The sum of counts is at most as many times the greatest count as there are counts.
pub proof fn lemma_lhs_total_bound(rules: Seq<(SymbolRule, u32)>, lhs: Seq<char>, n: int)
    requires
        0 <= n <= rules.len(),
    ensures
        lhs_total(rules, lhs, n) <= n * u32::MAX,
    decreases n,
{
    if n > 0 {
        lemma_lhs_total_bound(rules, lhs, n - 1);
        assert((n - 1) * u32::MAX + u32::MAX == n * u32::MAX) by (nonlinear_arith);
    }
}

/// The shares of the rules of one left side sum to one: for every rule of
/// a normalised grammar, the counts in the shares of the rules with its
/// left side add up to the total in its own share, and its own count is
/// among them.
pub proof fn lemma_shares_sum_to_one(rules: Seq<(SymbolRule, u32)>, i: int)
    requires
        0 <= i < rules.len() <= usize::MAX,
    ensures
        normalised(rules)[i].1.total == share_sum(
            normalised(rules),
            normalised(rules)[i].0.lhs(),
            rules.len() as int,
        ),
        normalised(rules)[i].1.count <= normalised(rules)[i].1.total,
        normalised(rules)[i].1.count == rules[i].1,
{
    let lhs = rules[i].0.lhs();
    let n = rules.len() as int;
    lemma_share_sum_is_total(rules, lhs, n);
    lemma_lhs_total_bound(rules, lhs, n);
    assert(n * u32::MAX <= usize::MAX * u32::MAX) by (nonlinear_arith)
        requires
            0 <= n <= usize::MAX,
    ;
    assert(usize::MAX * u32::MAX <= 0xffff_ffff_ffff_ffff * 0xffff_ffff) by (nonlinear_arith)
        requires
            usize::MAX <= 0xffff_ffff_ffff_ffff,
            u32::MAX == 0xffff_ffff,
    ;
    lemma_total_holds_count(rules, lhs, i, n);
}

proof fn lemma_share_sum_is_total(rules: Seq<(SymbolRule, u32)>, lhs: Seq<char>, n: int)
    requires
        0 <= n <= rules.len(),
    ensures
        share_sum(normalised(rules), lhs, n) == lhs_total(rules, lhs, n),
    decreases n,
{
    if n > 0 {
        lemma_share_sum_is_total(rules, lhs, n - 1);
    }
}

proof fn lemma_total_holds_count(rules: Seq<(SymbolRule, u32)>, lhs: Seq<char>, i: int, n: int)
    requires
        0 <= i < n <= rules.len(),
        rules[i].0.lhs() == lhs,
    ensures
        rules[i].1 <= lhs_total(rules, lhs, n),
    decreases n,
{
    if i < n - 1 {
        lemma_total_holds_count(rules, lhs, i, n - 1);
    }
}

/// The left side of a rule.
pub fn lhs_of(rule: &Rule<String, String>) -> (r: &String)
    ensures
        r@ == rule@.lhs(),
{
    match rule {
        Rule::Lexical { lhs, .. } => lhs,
        Rule::NonLexical { lhs, .. } => lhs,
    }
}

/// A grammar: rules, each once, with a weight each, in the order in which
/// they came.
pub struct GrammarWeighted<W> {
    entries: Vec<WeightedRule<String, String, W>>,
    index: RuleIndex,
}

/// A copy of a rule.
pub fn clone_rule(rule: &Rule<String, String>) -> (r: Rule<String, String>)
    ensures
        r@ == rule@,
{
    match rule {
        Rule::Lexical { lhs, rhs } => Rule::Lexical { lhs: lhs.clone(), rhs: rhs.clone() },
        Rule::NonLexical { lhs, rhs } => {
            let mut copy: Vec<String> = Vec::new();
            let mut k: usize = 0;
            while k < rhs.len()
                invariant
                    k <= rhs.len(),
                    copy@.len() == k,
                    forall|i: int| 0 <= i < k ==> (#[trigger] copy@[i])@ == rhs@[i]@,
                decreases rhs.len() - k,
            {
                copy.push(rhs[k].clone());
                k += 1;
            }
            assert(label_views(copy@) =~= label_views(rhs@));
            Rule::NonLexical { lhs: lhs.clone(), rhs: copy }
        },
    }
}

impl<W> GrammarWeighted<W> {
    /// The rules with their weights, in order.
    pub closed spec fn rules(self) -> Seq<(SymbolRule, W)> {
        Seq::new(self.entries@.len(), |i: int| (self.entries@[i].rule@, self.entries@[i].weight))
    }

    /// The index holds every rule under its place, and nothing else.
    pub closed spec fn wf(self) -> bool {
        let rules = self.rules();
        let index = rule_index(self.index);
        &&& forall|i: int|
            0 <= i < rules.len() ==> index.contains_key((#[trigger] rules[i]).0) && index[rules[i].0]
                == i
        &&& forall|r: SymbolRule| #[trigger]
            index.contains_key(r) ==> 0 <= index[r] < rules.len() && rules[index[r] as int].0 == r
    }

    /// In a well-formed grammar no rule occurs twice.
    pub proof fn lemma_wf(self)
        requires
            self.wf(),
        ensures
            no_rule_twice(self.rules()),
    {
        let rules = self.rules();
        let index = rule_index(self.index);
        assert forall|i: int, j: int| 0 <= i < j < rules.len() implies (#[trigger] rules[i]).0 != (
        #[trigger] rules[j]).0 by {
            assert(index[rules[i].0] == i);
            assert(index[rules[j].0] == j);
        }
    }

    /// A grammar without rules.
    pub fn new() -> (r: Self)
        ensures
            r.wf(),
            r.rules() == Seq::<(SymbolRule, W)>::empty(),
    {
        let r = GrammarWeighted { entries: Vec::new(), index: rule_index_new() };
        assert(r.rules() =~= Seq::<(SymbolRule, W)>::empty());
        r
    }

    /// The number of rules.
    pub fn len(&self) -> (r: usize)
        ensures
            r == self.rules().len(),
    {
        self.entries.len()
    }

    /// Whether the grammar has no rule.
    pub fn is_empty(&self) -> (r: bool)
        ensures
            r == (self.rules().len() == 0),
    {
        self.entries.len() == 0
    }

    /// The rules with their weights, in order.
    pub fn entries(&self) -> (r: &Vec<WeightedRule<String, String, W>>)
        ensures
            r@.len() == self.rules().len(),
            forall|i: int|
                0 <= i < r@.len() ==> (#[trigger] r@[i]).rule@ == self.rules()[i].0 && r@[i].weight
                    == self.rules()[i].1,
    {
        &self.entries
    }

    /// Gives the rule the weight `weight`, in the place of the weight it
    /// has or as a new rule behind the others, and tells the rule's place.
    pub fn set(&mut self, rule: Rule<String, String>, weight: W) -> (at: usize)
        requires
            old(self).wf(),
        ensures
            final(self).wf(),
            final(self).rules() == stored(old(self).rules(), rule@, weight),
            at < final(self).rules().len(),
            final(self).rules()[at as int] == (rule@, weight),
            match place_of(old(self).rules(), rule@) {
                Some(i) => at == i,
                None => at == old(self).rules().len(),
            },
    {
        let ghost before = self.rules();
        proof {
            self.lemma_wf();
        }
        match rule_index_get(&self.index, &rule) {
            Some(i) => {
                proof {
                    assert(before[i as int].0 == rule@);
                    let p = place_of(before, rule@)->0;
                    assert(before[p].0 == rule@);
                    assert(p == i);
                }
                self.entries[i] = WeightedRule { rule, weight };
                proof {
                    assert(self.rules() =~= before.update(i as int, (rule@, weight)));
                    assert forall|k: int| 0 <= k < self.rules().len() implies (
                    #[trigger] self.rules()[k]).0 == before[k].0 by {}
                }
                i
            },
            None => {
                proof {
                    if place_of(before, rule@) is Some {
                        let p = place_of(before, rule@)->0;
                        assert(rule_index(self.index).contains_key(before[p].0));
                    }
                }
                let at = self.entries.len();
                rule_index_insert(&mut self.index, clone_rule(&rule), at);
                self.entries.push(WeightedRule { rule, weight });
                proof {
                    let after = self.rules();
                    assert(after =~= before.push((rule@, weight)));
                    let index = rule_index(self.index);
                    assert forall|i: int| 0 <= i < after.len() implies index.contains_key(
                        (#[trigger] after[i]).0,
                    ) && index[after[i].0] == i by {
                        if i < before.len() {
                            assert(after[i] == before[i]);
                            assert(rule_index(old(self).index).contains_key(before[i].0));
                        }
                    }
                    assert forall|r: SymbolRule| #[trigger] index.contains_key(r) implies 0
                        <= index[r] < after.len() && after[index[r] as int].0 == r by {
                        if r != rule@ {
                            assert(rule_index(old(self).index).contains_key(r));
                        }
                    }
                }
                at
            },
        }
    }

    /// The weight of a rule, if the grammar has the rule.
    pub fn get(&self, rule: &Rule<String, String>) -> (r: Option<&W>)
        requires
            self.wf(),
        ensures
            match r {
                Some(w) => place_of(self.rules(), rule@) is Some && *w == self.rules()[place_of(
                    self.rules(),
                    rule@,
                )->0].1,
                None => place_of(self.rules(), rule@) is None,
            },
    {
        proof {
            self.lemma_wf();
        }
        match rule_index_get(&self.index, rule) {
            Some(i) => {
                proof {
                    assert(self.rules()[i as int].0 == rule@);
                    let p = place_of(self.rules(), rule@)->0;
                    assert(self.rules()[p].0 == rule@);
                    assert(p == i);
                }
                Some(&self.entries[i].weight)
            },
            None => {
                proof {
                    if place_of(self.rules(), rule@) is Some {
                        let p = place_of(self.rules(), rule@)->0;
                        assert(rule_index(self.index).contains_key(self.rules()[p].0));
                    }
                }
                None
            },
        }
    }
}

impl<W> Default for GrammarWeighted<W> {
    fn default() -> (r: Self)
        ensures
            r.wf(),
            r.rules() == Seq::<(SymbolRule, W)>::empty(),
    {
        GrammarWeighted::new()
    }
}

impl GrammarWeighted<u32> {
    /// How often the rule `r` was counted.
    pub open spec fn count_of(self, r: SymbolRule) -> nat {
        count_in(self.rules(), r)
    }

    /// Counts the rule once more.
    pub fn insert(&mut self, rule: Rule<String, String>)
        requires
            old(self).wf(),
            old(self).count_of(rule@) < u32::MAX,
        ensures
            final(self).wf(),
            final(self).rules() == recorded(old(self).rules(), rule@, 1),
    {
        self.insert_with_weight(rule, 1);
    }

    /// Counts the rule `weight` more times.
    pub fn insert_with_weight(&mut self, rule: Rule<String, String>, weight: u32)
        requires
            old(self).wf(),
            old(self).count_of(rule@) + weight <= u32::MAX,
        ensures
            final(self).wf(),
            final(self).rules() == recorded(old(self).rules(), rule@, weight),
    {
        let ghost before = self.rules();
        proof {
            self.lemma_wf();
        }
        match rule_index_get(&self.index, &rule) {
            Some(i) => {
                proof {
                    assert(before[i as int].0 == rule@);
                    let p = place_of(before, rule@)->0;
                    assert(before[p].0 == rule@);
                    assert(p == i);
                    lemma_count_at(before, i as int);
                }
                let old_weight = self.entries[i].weight;
                self.entries[i] = WeightedRule { rule, weight: old_weight + weight };
                proof {
                    assert(self.rules() =~= before.update(
                        i as int,
                        (rule@, (old_weight + weight) as u32),
                    ));
                }
            },
            None => {
                proof {
                    if place_of(before, rule@) is Some {
                        let p = place_of(before, rule@)->0;
                        assert(rule_index(self.index).contains_key(before[p].0));
                    }
                }
                let at = self.entries.len();
                rule_index_insert(&mut self.index, clone_rule(&rule), at);
                self.entries.push(WeightedRule { rule, weight });
                proof {
                    let after = self.rules();
                    assert(after =~= before.push((rule@, weight)));
                    let index = rule_index(self.index);
                    assert forall|i: int| 0 <= i < after.len() implies index.contains_key(
                        (#[trigger] after[i]).0,
                    ) && index[after[i].0] == i by {
                        if i < before.len() {
                            assert(after[i] == before[i]);
                            assert(rule_index(old(self).index).contains_key(before[i].0));
                        }
                    }
                    assert forall|r: SymbolRule| #[trigger] index.contains_key(r) implies 0
                        <= index[r] < after.len() && after[index[r] as int].0 == r by {
                        if r != rule@ {
                            assert(rule_index(old(self).index).contains_key(r));
                        }
                    }
                }
            },
        }
    }

    /// Counts the rules of a tree on top of the counts of this grammar.
    pub fn count_tree(&mut self, tree: &Tree<String>)
        requires
            old(self).wf(),
            tree_fits(old(self).rules(), tree@),
        ensures
            final(self).wf(),
            final(self).rules() == counted(old(self).rules(), tree@),
        decreases tree,
    {
        let ghost start = self.rules();
        let ghost t = tree@;
        let n = tree.children.len();
        proof {
            self.lemma_wf();
            lemma_tree_view(*tree);
        }
        if n == 1 && tree.children[0].children.len() == 0 {
            proof {
                lemma_tree_view(tree.children@[0]);
                let rule = RuleView::Lexical { lhs: t.root, rhs: t.children[0].root };
                assert(node_rule(t) == Some(rule));
                assert(count_in(start, rule) + occurrences(t, rule) <= u32::MAX);
            }
            self.insert(
                Rule::Lexical { lhs: tree.root.clone(), rhs: tree.children[0].root.clone() },
            );
        } else if n >= 1 {
            let mut rhs: Vec<String> = Vec::new();
            let mut k: usize = 0;
            while k < n
                invariant
                    k <= n,
                    n == tree.children@.len(),
                    rhs@.len() == k,
                    t == tree@,
                    t.children.len() == n,
                    forall|i: int| 0 <= i < k ==> (#[trigger] rhs@[i])@ == t.children[i].root,
                decreases n - k,
            {
                proof {
                    lemma_tree_view(*tree);
                    lemma_tree_view(tree.children@[k as int]);
                }
                rhs.push(tree.children[k].root.clone());
                k += 1;
            }
            proof {
                lemma_tree_view(tree.children@[0]);
                let rule = RuleView::NonLexical {
                    lhs: t.root,
                    rhs: Seq::new(t.children.len(), |i: int| t.children[i].root),
                };
                assert(label_views(rhs@) =~= Seq::new(t.children.len(), |i: int| t.children[i].root));
                assert(node_rule(t) == Some(rule));
                assert(count_in(start, rule) + occurrences(t, rule) <= u32::MAX);
            }
            self.insert(Rule::NonLexical { lhs: tree.root.clone(), rhs });
        }
        let ghost first = self.rules();
        proof {
            assert(first == match node_rule(t) {
                Some(r) => recorded(start, r, 1),
                None => start,
            });
            self.lemma_wf();
            assert(forest_fits(first, t, n as nat)) by {
                assert forall|r: SymbolRule|
                    count_in(first, r) + #[trigger] occurrences_upto(t, n as nat, r)
                        <= u32::MAX by {
                    assert(count_in(start, r) + occurrences(t, r) <= u32::MAX);
                    match node_rule(t) {
                        Some(rule) => {
                            assert(count_in(start, rule) + occurrences(t, rule) <= u32::MAX);
                            lemma_recorded_count(start, rule, 1, r);
                        },
                        None => {},
                    }
                }
            }
        }
        let mut k: usize = 0;
        while k < n
            invariant
                k <= n,
                n == tree.children@.len(),
                t == tree@,
                t.children.len() == n,
                self.wf(),
                no_rule_twice(first),
                forest_fits(first, t, n as nat),
                self.rules() == counted_upto(first, t, k as nat),
            decreases n - k,
        {
            proof {
                lemma_tree_view(*tree);
                let now = self.rules();
                let child = t.children[k as int];
                assert(forest_fits(first, t, k as nat)) by {
                    assert forall|r: SymbolRule|
                        count_in(first, r) + #[trigger] occurrences_upto(t, k as nat, r)
                            <= u32::MAX by {
                        lemma_occurrences_upto_grow(t, k as nat, n as nat, r);
                        assert(count_in(first, r) + occurrences_upto(t, n as nat, r) <= u32::MAX);
                    }
                }
                lemma_counted_upto(first, t, k as nat);
                assert(tree_fits(now, child)) by {
                    assert forall|r: SymbolRule| count_in(now, r) + #[trigger] occurrences(child, r)
                        <= u32::MAX by {
                        assert(count_in(now, r) == count_in(first, r) + occurrences_upto(
                            t,
                            k as nat,
                            r,
                        ));
                        lemma_occurrences_upto_grow(t, (k + 1) as nat, n as nat, r);
                        assert(count_in(first, r) + occurrences_upto(t, n as nat, r) <= u32::MAX);
                    }
                }
            }
            self.count_tree(&tree.children[k]);
            k += 1;
        }
    }

    /// The rules of a tree with the number of times each occurs in it.
    pub fn from(tree: Tree<String>) -> (r: Self)
        requires
            tree_fits(Seq::empty(), tree@),
        ensures
            r.wf(),
            r.rules() == counted(Seq::empty(), tree@),
    {
        let mut rule_set = GrammarWeighted::new();
        rule_set.count_tree(&tree);
        rule_set
    }

    /// The rules of a tree with the number of times each occurs in it, or
    /// nothing where the tree has more nodes than `u32` counts.
    pub fn try_from(tree: Tree<String>) -> (r: Option<Self>)
        ensures
            match r {
                Some(g) => g.wf() && tree_fits(Seq::empty(), tree@) && g.rules() == counted(
                    Seq::empty(),
                    tree@,
                ),
                None => tree@.size() > u32::MAX,
            },
    {
        match tree.size_within(0xffff_ffff) {
            Some(_) => {
                proof {
                    assert forall|r: SymbolRule|
                        count_in(Seq::empty(), r) + #[trigger] occurrences(tree@, r)
                            <= u32::MAX by {
                        lemma_occurrences_bound(tree@, r);
                    }
                }
                Some(GrammarWeighted::<u32>::from(tree))
            },
            None => None,
        }
    }

    /// Whether the counts of `other` can be added to those of this grammar
    /// without a count growing above what `u32` holds.
    pub fn can_absorb(&self, other: &Self) -> (r: bool)
        requires
            self.wf(),
            other.wf(),
        ensures
            r == self.absorbs(*other),
    {
        let ghost a = self.rules();
        let ghost b = other.rules();
        proof {
            self.lemma_wf();
            other.lemma_wf();
        }
        let mut k: usize = 0;
        while k < other.entries.len()
            invariant
                k <= other.entries@.len(),
                a == self.rules(),
                b == other.rules(),
                self.wf(),
                other.wf(),
                no_rule_twice(a),
                no_rule_twice(b),
                forall|i: int|
                    0 <= i < k ==> count_in(a, (#[trigger] b[i]).0) + count_in(b, b[i].0)
                        <= u32::MAX,
            decreases other.entries@.len() - k,
        {
            let entry = &other.entries[k];
            proof {
                lemma_count_at(b, k as int);
                assert(b[k as int] == (entry.rule@, entry.weight));
            }
            match self.get(&entry.rule) {
                Some(mine) => {
                    proof {
                        let p = place_of(a, entry.rule@)->0;
                        assert(a[p].0 == entry.rule@);
                        lemma_count_at(a, p);
                    }
                    if *mine > u32::MAX - entry.weight {
                        assert(count_in(a, b[k as int].0) + count_in(b, b[k as int].0) > u32::MAX);
                        return false;
                    }
                },
                None => {
                    proof {
                        assert forall|i: int| 0 <= i < a.len() implies (#[trigger] a[i]).0
                            != entry.rule@ by {}
                        lemma_count_absent(a, entry.rule@);
                    }
                },
            }
            k += 1;
        }
        proof {
            assert forall|r: SymbolRule| count_in(a, r) + #[trigger] count_in(b, r)
                <= u32::MAX by {
                if exists|i: int| 0 <= i < b.len() && (#[trigger] b[i]).0 == r {
                    let i = choose|i: int| 0 <= i < b.len() && (#[trigger] b[i]).0 == r;
                    assert(count_in(a, b[i].0) + count_in(b, b[i].0) <= u32::MAX);
                } else {
                    lemma_count_absent(b, r);
                    lemma_count_bounded(a, r);
                }
            }
        }
        true
    }

    /// Whether the counts of `other` can be added without a count growing above what `u32` holds.
    pub open spec fn absorbs(self, other: Self) -> bool {
        counts_fit(self.rules(), other.rules())
    }

    /// Adds the counts of `other` to the counts of this grammar.
    pub fn absorb(&mut self, other: Self)
        requires
            old(self).wf(),
            other.wf(),
            old(self).absorbs(other),
        ensures
            final(self).wf(),
            final(self).rules() == absorbed(old(self).rules(), other.rules()),
    {
        let ghost a = self.rules();
        let ghost b = other.rules();
        let ghost taken = other.entries@;
        proof {
            self.lemma_wf();
            other.lemma_wf();
            assert(b.take(0) =~= Seq::<(SymbolRule, u32)>::empty());
        }
        for entry in it: other.entries
            invariant
                it.seq() == taken,
                b.len() == taken.len(),
                forall|i: int|
                    0 <= i < taken.len() ==> (#[trigger] b[i]) == (taken[i].rule@, taken[i].weight),
                no_rule_twice(a),
                no_rule_twice(b),
                counts_fit(a, b),
                self.wf(),
                self.rules() == absorbed(a, b.take(it.index() as int)),
        {
            let ghost k = it.index() as int;
            let ghost done = b.take(k);
            proof {
                assert(b.take(k + 1).drop_last() =~= done);
                assert(b.take(k + 1).last() == b[k]);
                lemma_take_fits(a, b, k);
                lemma_absorbed_count(a, done, entry.rule@);
                lemma_count_of_absent(b, k);
                lemma_count_at(b, k);
                assert(count_in(a, b[k].0) + count_in(b, b[k].0) <= u32::MAX);
            }
            self.insert_with_weight(entry.rule, entry.weight);
        }
        proof {
            assert(b.take(b.len() as int) =~= b);
        }
    }

    /// The grammar with the counts of both grammars.
    pub fn merge(self, other: Self) -> (r: Self)
        requires
            self.wf(),
            other.wf(),
            self.absorbs(other),
        ensures
            r.wf(),
            r.rules() == absorbed(self.rules(), other.rules()),
    {
        let mut merged = self;
        merged.absorb(other);
        merged
    }
}

impl GrammarWeighted<Ratio> {
    /// The rules of a grammar of counts, each with its share among the rules of its left side.
    pub fn from(grammar: GrammarWeighted<u32>) -> (r: Self)
        requires
            grammar.wf(),
            grammar.rules().len() <= u32::MAX,
        ensures
            r.wf(),
            r.rules() == normalised(grammar.rules()),
    {
        let ghost rules = grammar.rules();
        let GrammarWeighted { entries, index } = grammar;
        let n = entries.len();
        let mut sides = SymbolTable::new();
        let mut totals: Vec<u128> = Vec::new();
        let mut i: usize = 0;
        while i < n
            invariant
                i <= n,
                n == entries@.len(),
                n <= u32::MAX,
                rules.len() == n,
                forall|j: int|
                    0 <= j < n ==> (#[trigger] rules[j]) == (entries@[j].rule@, entries@[j].weight),
                sides.wf(),
                sides@.len() <= i,
                totals@.len() == sides@.len(),
                forall|id: int|
                    0 <= id < totals@.len() ==> #[trigger] totals@[id] == lhs_total(
                        rules,
                        sides@[id],
                        i as int,
                    ),
                forall|s: Seq<char>| !sides@.contains(s) ==> #[trigger] lhs_total(rules, s, i as int) == 0,
            decreases n - i,
        {
            let ghost before = sides@;
            let ghost totals_before = totals@;
            let lhs = lhs_of(&entries[i].rule);
            let ghost side = lhs@;
            let id = sides.intern(lhs.clone()) as usize;
            if id == totals.len() {
                totals.push(0);
            }
            proof {
                assert(rules[i as int].0.lhs() == side);
                lemma_lhs_total_bound(rules, side, i as int);
                assert(i * u32::MAX + u32::MAX < u128::MAX) by (nonlinear_arith)
                    requires
                        i <= u32::MAX,
                        u32::MAX == 0xffff_ffff,
                        u128::MAX >= 0xffff_ffff_ffff_ffff_ffff,
                ;
                if before.contains(side) {
                    assert(id == before.index_of(side));
                    assert(totals@[id as int] == lhs_total(rules, side, i as int));
                } else {
                    assert(lhs_total(rules, side, i as int) == 0);
                }
            }
            let sum = totals[id] + entries[i].weight as u128;
            totals[id] = sum;
            proof {
                sides.lemma_wf();
                assert forall|k: int| 0 <= k < totals@.len() implies #[trigger] totals@[k]
                    == lhs_total(rules, sides@[k], i + 1) by {
                    if k != id {
                        assert(sides@[k] != sides@[id as int]);
                        assert(totals@[k] == totals_before[k]);
                        assert(sides@[k] == before[k]);
                    }
                }
                assert forall|s: Seq<char>| !sides@.contains(s) implies #[trigger] lhs_total(
                    rules,
                    s,
                    i + 1,
                ) == 0 by {
                    assert(s != side) by {
                        assert(sides@[id as int] == side);
                    }
                    if before.contains(s) {
                        let k = before.index_of(s);
                        assert(sides@[k] == s);
                    }
                    assert(lhs_total(rules, s, i as int) == 0);
                }
            }
            i += 1;
        }
        let mut out: Vec<WeightedRule<String, String, Ratio>> = Vec::new();
        let ghost taken = entries@;
        for entry in it: entries
            invariant
                it.seq() == taken,
                taken.len() == n,
                rules.len() == n,
                forall|j: int|
                    0 <= j < n ==> (#[trigger] rules[j]) == (taken[j].rule@, taken[j].weight),
                sides.wf(),
                totals@.len() == sides@.len(),
                forall|id: int|
                    0 <= id < totals@.len() ==> #[trigger] totals@[id] == lhs_total(
                        rules,
                        sides@[id],
                        n as int,
                    ),
                forall|s: Seq<char>| !sides@.contains(s) ==> #[trigger] lhs_total(rules, s, n as int) == 0,
                out@.len() == it.index(),
                forall|j: int|
                    0 <= j < it.index() ==> ((#[trigger] out@[j]).rule@, out@[j].weight)
                        == normalised(rules)[j],
        {
            let ghost j = it.index() as int;
            let ghost side = entry.rule@.lhs();
            assert(rules[j] == (entry.rule@, entry.weight));
            let total = match sides.find(lhs_of(&entry.rule)) {
                Some(id) => totals[id as usize],
                None => {
                    proof {
                        assert(lhs_total(rules, side, n as int) == 0);
                    }
                    0
                },
            };
            out.push(WeightedRule { rule: entry.rule, weight: Ratio { count: entry.weight, total } });
        }
        let r = GrammarWeighted { entries: out, index };
        proof {
            assert(r.rules() =~= normalised(rules));
            assert forall|k: int| 0 <= k < r.rules().len() implies rule_index(r.index).contains_key(
                (#[trigger] r.rules()[k]).0,
            ) && rule_index(r.index)[r.rules()[k].0] == k by {
                assert(r.rules()[k].0 == rules[k].0);
            }
            assert forall|x: SymbolRule| #[trigger]
                rule_index(r.index).contains_key(x) implies 0 <= rule_index(r.index)[x]
                < r.rules().len() && r.rules()[rule_index(r.index)[x] as int].0 == x by {
                let k = rule_index(r.index)[x] as int;
                assert(rules[k].0 == x);
                assert(r.rules()[k].0 == rules[k].0);
            }
        }
        r
    }
}

/// In counts without a rule twice, the count of a rule is the count at its place.
pub proof fn lemma_count_at(rules: Seq<(SymbolRule, u32)>, i: int)
    requires
        no_rule_twice(rules),
        0 <= i < rules.len(),
    ensures
        count_in(rules, rules[i].0) == rules[i].1,
    decreases rules.len(),
{
    let r = rules[i].0;
    if i == rules.len() - 1 {
        lemma_count_absent(rules.drop_last(), r);
    } else {
        assert(rules.drop_last()[i] == rules[i]);
        lemma_count_at(rules.drop_last(), i);
    }
}

/// In counts without a rule twice, no count is above what `u32` holds.
pub proof fn lemma_count_bounded(rules: Seq<(SymbolRule, u32)>, r: SymbolRule)
    requires
        no_rule_twice(rules),
    ensures
        count_in(rules, r) <= u32::MAX,
{
    if exists|i: int| 0 <= i < rules.len() && (#[trigger] rules[i]).0 == r {
        let i = choose|i: int| 0 <= i < rules.len() && (#[trigger] rules[i]).0 == r;
        lemma_count_at(rules, i);
    } else {
        lemma_count_absent(rules, r);
    }
}

/// A rule that is not among the counts has the count 0.
pub proof fn lemma_count_absent(rules: Seq<(SymbolRule, u32)>, r: SymbolRule)
    requires
        forall|i: int| 0 <= i < rules.len() ==> (#[trigger] rules[i]).0 != r,
    ensures
        count_in(rules, r) == 0,
    decreases rules.len(),
{
    if rules.len() > 0 {
        assert forall|i: int| 0 <= i < rules.drop_last().len() implies (
        #[trigger] rules.drop_last()[i]).0 != r by {
            assert(rules.drop_last()[i] == rules[i]);
        }
        lemma_count_absent(rules.drop_last(), r);
    }
}

/// The rule at place `k` does not occur before place `k`.
proof fn lemma_count_of_absent(rules: Seq<(SymbolRule, u32)>, k: int)
    requires
        no_rule_twice(rules),
        0 <= k < rules.len(),
    ensures
        count_in(rules.take(k), rules[k].0) == 0,
{
    assert forall|i: int| 0 <= i < rules.take(k).len() implies (#[trigger] rules.take(k)[i]).0
        != rules[k].0 by {
        assert(rules.take(k)[i] == rules[i]);
    }
    lemma_count_absent(rules.take(k), rules[k].0);
}

/// The count of a rule in the first `k` counts is at most its count in all.
proof fn lemma_count_at_most(rules: Seq<(SymbolRule, u32)>, r: SymbolRule, k: int)
    requires
        0 <= k <= rules.len(),
    ensures
        count_in(rules.take(k), r) <= count_in(rules, r),
    decreases rules.len() - k,
{
    if k < rules.len() {
        assert(rules.take(k + 1).drop_last() =~= rules.take(k));
        lemma_count_at_most(rules, r, k + 1);
    } else {
        assert(rules.take(k) =~= rules);
    }
}

/// The first `k` of counts that fit are counts that fit, and hold no rule twice.
proof fn lemma_take_fits(a: Seq<(SymbolRule, u32)>, b: Seq<(SymbolRule, u32)>, k: int)
    requires
        0 <= k <= b.len(),
        no_rule_twice(b),
        counts_fit(a, b),
    ensures
        no_rule_twice(b.take(k)),
        counts_fit(a, b.take(k)),
{
    assert forall|i: int, j: int| 0 <= i < j < b.take(k).len() implies (#[trigger] b.take(k)[i]).0
        != (#[trigger] b.take(k)[j]).0 by {
        assert(b.take(k)[i] == b[i]);
        assert(b.take(k)[j] == b[j]);
    }
    assert forall|r: SymbolRule| count_in(a, r) + #[trigger] count_in(b.take(k), r)
        <= u32::MAX by {
        lemma_count_at_most(b, r, k);
        assert(count_in(a, r) + count_in(b, r) <= u32::MAX);
    }
}

/// Counting a rule `w` more times adds `w` to its count and leaves the other counts.
pub proof fn lemma_recorded_count(rules: Seq<(SymbolRule, u32)>, r: SymbolRule, w: u32, q: SymbolRule)
    requires
        no_rule_twice(rules),
        count_in(rules, r) + w <= u32::MAX,
    ensures
        no_rule_twice(recorded(rules, r, w)),
        count_in(recorded(rules, r, w), q) == count_in(rules, q) + (if q == r {
            w as nat
        } else {
            0
        }),
{
    let after = recorded(rules, r, w);
    match place_of(rules, r) {
        Some(i) => {
            assert(rules[i].0 == r);
            lemma_count_at(rules, i);
            assert forall|x: int, y: int| 0 <= x < y < after.len() implies (#[trigger] after[x]).0
                != (#[trigger] after[y]).0 by {
                assert(after[x].0 == rules[x].0);
                assert(after[y].0 == rules[y].0);
            }
            lemma_count_update(rules, i, (rules[i].1 + w) as u32, q);
        },
        None => {
            assert forall|x: int| 0 <= x < rules.len() implies (#[trigger] rules[x]).0 != r by {}
            lemma_count_absent(rules, r);
            assert(after.drop_last() =~= rules);
            assert forall|x: int, y: int| 0 <= x < y < after.len() implies (#[trigger] after[x]).0
                != (#[trigger] after[y]).0 by {
                if y < rules.len() {
                    assert(after[x] == rules[x]);
                    assert(after[y] == rules[y]);
                } else {
                    assert(after[x] == rules[x]);
                }
            }
        },
    }
}

/// What a new count at place `i` does to the count of the rule `q`.
proof fn lemma_count_update(rules: Seq<(SymbolRule, u32)>, i: int, c: u32, q: SymbolRule)
    requires
        0 <= i < rules.len(),
    ensures
        count_in(rules.update(i, (rules[i].0, c)), q) == count_in(rules, q) - (if rules[i].0 == q {
            rules[i].1 as int
        } else {
            0
        }) + (if rules[i].0 == q {
            c as int
        } else {
            0
        }),
    decreases rules.len(),
{
    let after = rules.update(i, (rules[i].0, c));
    if i == rules.len() - 1 {
        assert(after.drop_last() =~= rules.drop_last());
    } else {
        assert(after.drop_last() =~= rules.drop_last().update(i, (rules[i].0, c)));
        assert(rules.drop_last()[i] == rules[i]);
        lemma_count_update(rules.drop_last(), i, c, q);
    }
}

/// Adding counts adds them rule by rule: within the range of `u32`, the
/// count of a rule in the sum is the sum of its counts.
pub proof fn lemma_absorbed_count(a: Seq<(SymbolRule, u32)>, b: Seq<(SymbolRule, u32)>, q: SymbolRule)
    requires
        no_rule_twice(a),
        no_rule_twice(b),
        counts_fit(a, b),
    ensures
        no_rule_twice(absorbed(a, b)),
        count_in(absorbed(a, b), q) == count_in(a, q) + count_in(b, q),
    decreases b.len(),
{
    if b.len() > 0 {
        let head = b.drop_last();
        let r = b.last().0;
        let w = b.last().1;
        assert(no_rule_twice(head)) by {
            assert forall|i: int, j: int| 0 <= i < j < head.len() implies (#[trigger] head[i]).0 != (
            #[trigger] head[j]).0 by {
                assert(head[i] == b[i]);
                assert(head[j] == b[j]);
            }
        }
        assert(b.take(b.len() - 1) =~= head);
        lemma_take_fits(a, b, b.len() - 1);
        lemma_absorbed_count(a, head, q);
        lemma_absorbed_count(a, head, r);
        assert(b.take(b.len() - 1) =~= head);
        lemma_count_of_absent(b, b.len() - 1);
        lemma_count_at(b, b.len() - 1);
        assert(count_in(a, r) + count_in(b, r) <= u32::MAX);
        lemma_recorded_count(absorbed(a, head), r, w, q);
    }
}

/// A rule occurs in a tree at most as often as the tree has nodes.
pub proof fn lemma_occurrences_bound(t: TreeView<Seq<char>>, r: SymbolRule)
    ensures
        occurrences(t, r) <= t.size(),
    decreases t, t.children.len() + 1,
{
    lemma_occurrences_upto_bound(t, t.children.len(), r);
}

proof fn lemma_occurrences_upto_bound(t: TreeView<Seq<char>>, n: nat, r: SymbolRule)
    requires
        n <= t.children.len(),
    ensures
        occurrences_upto(t, n, r) <= t.size_upto(n),
    decreases t, n,
{
    if n > 0 {
        lemma_occurrences_upto_bound(t, (n - 1) as nat, r);
        lemma_occurrences_bound(t.children[n - 1], r);
    }
}

proof fn lemma_occurrences_upto_grow(t: TreeView<Seq<char>>, k: nat, n: nat, r: SymbolRule)
    requires
        k <= n <= t.children.len(),
    ensures
        occurrences_upto(t, k, r) <= occurrences_upto(t, n, r),
    decreases n,
{
    if k < n {
        lemma_occurrences_upto_grow(t, k, (n - 1) as nat, r);
    }
}

/// Counting the rules of the first `n` subtrees of a tree adds, for every
/// rule, the number of times it occurs in them.
pub proof fn lemma_counted_upto(start: Seq<(SymbolRule, u32)>, t: TreeView<Seq<char>>, n: nat)
    requires
        no_rule_twice(start),
        forest_fits(start, t, n),
        n <= t.children.len(),
    ensures
        counts_grew(start, counted_upto(start, t, n), |r: SymbolRule| occurrences_upto(t, n, r)),
    decreases t, n,
{
    if n > 0 {
        let k = (n - 1) as nat;
        let child = t.children[n - 1];
        let prev = counted_upto(start, t, k);
        assert(forest_fits(start, t, k)) by {
            assert forall|r: SymbolRule| count_in(start, r) + #[trigger] occurrences_upto(t, k, r)
                <= u32::MAX by {
                lemma_occurrences_upto_grow(t, k, n, r);
                assert(count_in(start, r) + occurrences_upto(t, n, r) <= u32::MAX);
            }
        }
        lemma_counted_upto(start, t, k);
        assert(tree_fits(prev, child)) by {
            assert forall|r: SymbolRule| count_in(prev, r) + #[trigger] occurrences(child, r)
                <= u32::MAX by {
                assert(count_in(prev, r) == count_in(start, r) + occurrences_upto(t, k, r));
                assert(count_in(start, r) + occurrences_upto(t, n, r) <= u32::MAX);
            }
        }
        lemma_counted(prev, child);
        assert forall|r: SymbolRule| #[trigger]
            count_in(counted_upto(start, t, n), r) == count_in(start, r) + occurrences_upto(
                t,
                n,
                r,
            ) by {
            assert(count_in(counted(prev, child), r) == count_in(prev, r) + occurrences(child, r));
            assert(count_in(prev, r) == count_in(start, r) + occurrences_upto(t, k, r));
        }
    }
}

/// Counting the rules of a tree adds, for every rule, the number of times it occurs in the tree.
pub proof fn lemma_counted(start: Seq<(SymbolRule, u32)>, t: TreeView<Seq<char>>)
    requires
        no_rule_twice(start),
        tree_fits(start, t),
    ensures
        counts_grew(start, counted(start, t), |r: SymbolRule| occurrences(t, r)),
    decreases t, t.children.len() + 1,
{
    let n = t.children.len();
    let first = match node_rule(t) {
        Some(r) => recorded(start, r, 1),
        None => start,
    };
    assert(counts_grew(
        start,
        first,
        |r: SymbolRule|
            if node_rule(t) == Some(r) {
                1nat
            } else {
                0nat
            },
    )) by {
        match node_rule(t) {
            Some(rule) => {
                assert(count_in(start, rule) + occurrences(t, rule) <= u32::MAX);
                assert forall|r: SymbolRule| #[trigger]
                    count_in(first, r) == count_in(start, r) + (if node_rule(t) == Some(r) {
                        1nat
                    } else {
                        0nat
                    }) by {
                    lemma_recorded_count(start, rule, 1, r);
                }
                lemma_recorded_count(start, rule, 1, rule);
            },
            None => {},
        }
    }
    assert(forest_fits(first, t, n)) by {
        assert forall|r: SymbolRule| count_in(first, r) + #[trigger] occurrences_upto(t, n, r)
            <= u32::MAX by {
            assert(count_in(start, r) + occurrences(t, r) <= u32::MAX);
            assert(count_in(first, r) == count_in(start, r) + (if node_rule(t) == Some(r) {
                1nat
            } else {
                0nat
            }));
        }
    }
    lemma_counted_upto(first, t, n);
    assert forall|r: SymbolRule| #[trigger]
        count_in(counted(start, t), r) == count_in(start, r) + occurrences(t, r) by {
        assert(count_in(counted_upto(first, t, n), r) == count_in(first, r) + occurrences_upto(
            t,
            n,
            r,
        ));
        assert(count_in(first, r) == count_in(start, r) + (if node_rule(t) == Some(r) {
            1nat
        } else {
            0nat
        }));
    }
}

/// Adding counts does not depend on the order of the two grammars: both
/// sums give every rule the same count.
pub proof fn lemma_merge_commutative(
    a: Seq<(SymbolRule, u32)>,
    b: Seq<(SymbolRule, u32)>,
    q: SymbolRule,
)
    requires
        no_rule_twice(a),
        no_rule_twice(b),
        counts_fit(a, b),
    ensures
        count_in(absorbed(a, b), q) == count_in(absorbed(b, a), q),
{
    lemma_absorbed_count(a, b, q);
    assert(counts_fit(b, a)) by {
        assert forall|r: SymbolRule| count_in(b, r) + #[trigger] count_in(a, r) <= u32::MAX by {
            assert(count_in(a, r) + count_in(b, r) <= u32::MAX);
        }
    }
    lemma_absorbed_count(b, a, q);
}

/// Adding counts does not depend on how three grammars are grouped: both
/// groupings give every rule the same count.
pub proof fn lemma_merge_associative(
    a: Seq<(SymbolRule, u32)>,
    b: Seq<(SymbolRule, u32)>,
    c: Seq<(SymbolRule, u32)>,
    q: SymbolRule,
)
    requires
        no_rule_twice(a),
        no_rule_twice(b),
        no_rule_twice(c),
        forall|r: SymbolRule|
            count_in(a, r) + count_in(b, r) + #[trigger] count_in(c, r) <= u32::MAX,
    ensures
        count_in(absorbed(absorbed(a, b), c), q) == count_in(absorbed(a, absorbed(b, c)), q),
{
    assert(counts_fit(a, b)) by {
        assert forall|r: SymbolRule| count_in(a, r) + #[trigger] count_in(b, r) <= u32::MAX by {
            assert(count_in(a, r) + count_in(b, r) + count_in(c, r) <= u32::MAX);
        }
    }
    assert(counts_fit(b, c)) by {
        assert forall|r: SymbolRule| count_in(b, r) + #[trigger] count_in(c, r) <= u32::MAX by {
            assert(count_in(a, r) + count_in(b, r) + count_in(c, r) <= u32::MAX);
        }
    }
    lemma_absorbed_count(a, b, q);
    lemma_absorbed_count(b, c, q);
    assert(counts_fit(absorbed(a, b), c)) by {
        assert forall|r: SymbolRule| count_in(absorbed(a, b), r) + #[trigger] count_in(c, r)
            <= u32::MAX by {
            lemma_absorbed_count(a, b, r);
            assert(count_in(a, r) + count_in(b, r) + count_in(c, r) <= u32::MAX);
        }
    }
    assert(counts_fit(a, absorbed(b, c))) by {
        assert forall|r: SymbolRule| count_in(a, r) + #[trigger] count_in(absorbed(b, c), r)
            <= u32::MAX by {
            lemma_absorbed_count(b, c, r);
            assert(count_in(a, r) + count_in(b, r) + count_in(c, r) <= u32::MAX);
        }
    }
    lemma_absorbed_count(absorbed(a, b), c, q);
    lemma_absorbed_count(a, absorbed(b, c), q);
}

} // verus!
