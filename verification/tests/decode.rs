use pcfg::grammar::cell::{
    cell_max, prune_below, prune_fixed_size, prune_threshold, BacktraceInfo, ChartEntry, CykMode,
};
use pcfg::grammar::parse::GrammarParse;
use pcfg::grammar::rule::{Rule, WeightedRule};
use pcfg::sentence::Sentence;
use pcfg::tree::{NodeType, Tree};

fn key(weight: f64) -> u64 {
    weight.to_bits()
}

fn times(a: u64, b: u64) -> u64 {
    (f64::from_bits(a) * f64::from_bits(b)).to_bits()
}

fn nonlexical(lhs: &str, rhs: &[&str], weight: f64) -> WeightedRule<String, String, u64> {
    WeightedRule {
        rule: Rule::NonLexical {
            lhs: lhs.to_string(),
            rhs: rhs.iter().map(|n| n.to_string()).collect(),
        },
        weight: key(weight),
    }
}

fn lexical(lhs: &str, rhs: &str, weight: f64) -> WeightedRule<String, String, u64> {
    WeightedRule {
        rule: Rule::Lexical {
            lhs: lhs.to_string(),
            rhs: rhs.to_string(),
        },
        weight: key(weight),
    }
}

fn eating_grammar() -> GrammarParse {
    let mut grammar = GrammarParse::new("S".to_string());
    grammar.insert_rule(nonlexical("S", &["NP", "VP"], 1.0));
    grammar.insert_rule(nonlexical("VP", &["VP", "PP"], 1.0));
    grammar.insert_rule(nonlexical("VP", &["V", "NP"], 1.0));
    grammar.insert_rule(nonlexical("PP", &["P", "NP"], 1.0));
    grammar.insert_rule(nonlexical("NP", &["Det", "N"], 1.0));
    grammar.insert_rule(nonlexical("NP", &["PN"], 1.0));
    grammar.insert_rule(lexical("VP", "eats", 1.0));
    grammar.insert_rule(lexical("PN", "she", 1.0));
    grammar.insert_rule(lexical("V", "eats", 1.0));
    grammar.insert_rule(lexical("P", "with", 1.0));
    grammar.insert_rule(lexical("N", "fish", 1.0));
    grammar.insert_rule(lexical("N", "fork", 1.0));
    grammar.insert_rule(lexical("Det", "a", 1.0));
    grammar
}

fn words(text: &[&str]) -> Sentence<String> {
    Sentence(text.iter().map(|w| w.to_string()).collect())
}

fn nt(label: &str, children: Vec<Tree<NodeType<String, String>>>) -> Tree<NodeType<String, String>> {
    Tree {
        root: NodeType::NonTerminal(label.to_string()),
        children,
    }
}

fn word(text: &str) -> Tree<NodeType<String, String>> {
    Tree {
        root: NodeType::Terminal(text.to_string()),
        children: vec![],
    }
}

#[test]
fn cyk_base_correct() {
    let grammar = eating_grammar();

    let tree = nt(
        "S",
        vec![
            nt("NP", vec![nt("PN", vec![word("she")])]),
            nt(
                "VP",
                vec![
                    nt(
                        "VP",
                        vec![
                            nt("V", vec![word("eats")]),
                            nt(
                                "NP",
                                vec![nt("Det", vec![word("a")]), nt("N", vec![word("fish")])],
                            ),
                        ],
                    ),
                    nt(
                        "PP",
                        vec![
                            nt("P", vec![word("with")]),
                            nt(
                                "NP",
                                vec![nt("Det", vec![word("a")]), nt("N", vec![word("fork")])],
                            ),
                        ],
                    ),
                ],
            ),
        ],
    );

    let sentence = words(&["she", "eats", "a", "fish", "with", "a", "fork"]);
    assert_eq!(
        tree,
        grammar.cyk(&sentence, CykMode::Base, &times).unwrap()
    );

    let sentence = words(&["a", "fish", "doesn't", "eat", "with", "a", "fork"]);
    assert!(grammar.cyk(&sentence, CykMode::Base, &times).is_none());
}

#[test]
fn cyk_parses_with_beams() {
    let grammar = eating_grammar();
    let sentence = words(&["she", "eats", "a", "fish", "with", "a", "fork"]);
    let base = grammar.cyk(&sentence, CykMode::Base, &times).unwrap();
    assert_eq!(
        "(S (NP (PN she)) (VP (VP (V eats) (NP (Det a) (N fish))) (PP (P with) (NP (Det a) (N fork)))))",
        base.to_text()
    );
    let narrow = grammar
        .cyk(&sentence, CykMode::PruneThreshold(key(0.5)), &times)
        .unwrap();
    assert_eq!(base, narrow);
    let ranked = grammar
        .cyk(&sentence, CykMode::PruneFixedSize(3), &times)
        .unwrap();
    assert_eq!(base, ranked);
}

#[test]
fn cyk_with_both_beams() {
    let grammar = eating_grammar();
    let sentence = words(&["she", "eats", "a", "fish", "with", "a", "fork"]);
    let base = grammar.cyk(&sentence, CykMode::Base, &times).unwrap();
    let both = grammar
        .cyk(&sentence, CykMode::PruneBoth(key(0.5), 2), &times)
        .unwrap();
    assert_eq!(base, both);
    assert!(CykMode::PruneBoth(key(0.5), 2).check());
    assert!(!CykMode::PruneBoth(key(0.5), 0).check());
    assert!(!CykMode::PruneFixedSize(0).check());
    assert!(CykMode::PruneFixedSize(1).check());
    assert!(CykMode::Base.check());
}

#[test]
fn beam_removes_the_lighter_derivation() {
    let mut grammar = GrammarParse::new("S".to_string());
    grammar.insert_rule(lexical("S", "x", 0.5));
    grammar.insert_rule(lexical("A", "x", 0.125));
    let sentence = words(&["x"]);
    let chart = grammar.fill_chart(&sentence, CykMode::Base, &times);
    assert_eq!(key(0.5), chart.get(0).weight);
    assert_eq!(key(0.125), chart.get(1).weight);
    let chart = grammar.fill_chart(&sentence, CykMode::PruneThreshold(key(0.5)), &times);
    assert_eq!(key(0.5), chart.get(0).weight);
    assert_eq!(0, chart.get(1).weight);
    assert_eq!(None, chart.get(1).back);
    let chart = grammar.fill_chart(&sentence, CykMode::PruneFixedSize(1), &times);
    assert_eq!(0, chart.get(1).weight);
    let chart = grammar.fill_chart(&sentence, CykMode::PruneFixedSize(2), &times);
    assert_eq!(key(0.125), chart.get(1).weight);
}

#[test]
fn later_lexical_rule_overwrites() {
    let mut grammar = GrammarParse::new("S".to_string());
    grammar.insert_rule(lexical("S", "x", 0.5));
    grammar.insert_rule(lexical("S", "x", 0.25));
    let chart = grammar.fill_chart(&words(&["x"]), CykMode::Base, &times);
    assert_eq!(key(0.25), chart.get(0).weight);
    assert_eq!(Some(BacktraceInfo::Term(0)), chart.get(0).back);
}

#[test]
fn cyk_two_rule_grammar() {
    let mut grammar = GrammarParse::new("NP".to_string());
    grammar.insert_rule(nonlexical("NP", &["D", "N"], 1.0));
    grammar.insert_rule(lexical("D", "the", 1.0));
    grammar.insert_rule(lexical("N", "ball", 1.0));
    let tree = grammar
        .cyk(&words(&["the", "ball"]), CykMode::Base, &times)
        .unwrap();
    assert_eq!("(NP (D the) (N ball))", tree.to_text());
}

#[test]
fn cyk_prefers_the_heavier_derivation() {
    let mut grammar = GrammarParse::new("S".to_string());
    grammar.insert_rule(nonlexical("S", &["A", "B"], 0.5));
    grammar.insert_rule(nonlexical("S", &["C", "B"], 0.5));
    grammar.insert_rule(lexical("A", "x", 0.25));
    grammar.insert_rule(lexical("C", "x", 0.75));
    grammar.insert_rule(lexical("B", "y", 1.0));
    let tree = grammar
        .cyk(&words(&["x", "y"]), CykMode::Base, &times)
        .unwrap();
    assert_eq!("(S (C x) (B y))", tree.to_text());
    // the chart holds the product of the weights on the way
    let chart = grammar.fill_chart(&words(&["x", "y"]), CykMode::Base, &times);
    let root = chart.cell_start_index(0, 2);
    assert_eq!(key(0.375), chart.get(root).weight);
}

#[test]
fn cyk_follows_chains_to_the_best_weight() {
    let mut grammar = GrammarParse::new("S".to_string());
    grammar.insert_rule(nonlexical("S", &["A"], 0.5));
    grammar.insert_rule(nonlexical("A", &["B"], 0.5));
    grammar.insert_rule(nonlexical("S", &["B"], 0.125));
    grammar.insert_rule(lexical("B", "w", 1.0));
    let sentence = words(&["w"]);
    let tree = grammar.cyk(&sentence, CykMode::Base, &times).unwrap();
    assert_eq!("(S (A (B w)))", tree.to_text());
    let chart = grammar.fill_chart(&sentence, CykMode::Base, &times);
    assert_eq!(key(0.25), chart.get(0).weight);
    assert_eq!(Some(BacktraceInfo::Chain(1)), chart.get(0).back);
}

#[test]
fn cyk_with_an_empty_grammar_finds_nothing() {
    let grammar = GrammarParse::new("ROOT".to_string());
    assert!(grammar
        .cyk(&words(&["a"]), CykMode::Base, &times)
        .is_none());
    assert!(grammar
        .cyk(&words(&["a", "b", "c"]), CykMode::Base, &times)
        .is_none());
    assert!(grammar
        .cyk(&words(&["a", "b"]), CykMode::PruneThreshold(key(0.1)), &times)
        .is_none());
    assert!(grammar
        .cyk(&words(&["a", "b"]), CykMode::PruneFixedSize(1), &times)
        .is_none());
}

#[test]
fn grammar_numbers_its_non_terminals() {
    let grammar = eating_grammar();
    assert_eq!(
        &vec!["S", "NP", "VP", "PP", "V", "P", "Det", "N", "PN"],
        grammar.lookup()
    );
    assert_eq!(0, grammar.initial_nonterminal());
    assert_eq!(9, grammar.num_nonterminals());
    assert!(grammar.can_chart(7));
    assert!(!grammar.can_chart(usize::MAX));
    assert_eq!(
        Some(&vec![(2u32, key(1.0)), (4u32, key(1.0))]),
        grammar.lexicals_for(&"eats".to_string())
    );
    assert_eq!(None, grammar.lexicals_for(&"drinks".to_string()));
    assert_eq!(Some(&vec![(1u32, key(1.0))]), grammar.chains_for(8));
    assert_eq!(
        Some(&vec![(2u32, 3u32, key(1.0)), (4u32, 1u32, key(1.0))]),
        grammar.binaries_for(2)
    );
}

fn entry(weight: f64, back: Option<BacktraceInfo>) -> ChartEntry {
    ChartEntry {
        weight: key(weight),
        back,
    }
}

fn sample_cell() -> Vec<ChartEntry> {
    vec![
        entry(0.5, Some(BacktraceInfo::Term(0))),
        entry(0.0, None),
        entry(0.25, Some(BacktraceInfo::Chain(0))),
        entry(0.125, Some(BacktraceInfo::Binary(1, 2))),
    ]
}

#[test]
fn threshold_beam() {
    let mut cell = sample_cell();
    assert_eq!(key(0.5), cell_max(&cell));

    // threshold 0 removes nothing
    prune_threshold(&mut cell, key(0.0), &times);
    assert_eq!(sample_cell(), cell);

    // threshold 1 keeps the best entry alone
    prune_threshold(&mut cell, key(1.0), &times);
    assert_eq!(
        vec![
            entry(0.5, Some(BacktraceInfo::Term(0))),
            ChartEntry::default(),
            ChartEntry::default(),
            ChartEntry::default(),
        ],
        cell
    );

    let mut cell = sample_cell();
    prune_threshold(&mut cell, key(0.5), &times);
    assert_eq!(
        vec![
            entry(0.5, Some(BacktraceInfo::Term(0))),
            ChartEntry::default(),
            entry(0.25, Some(BacktraceInfo::Chain(0))),
            ChartEntry::default(),
        ],
        cell
    );

    let mut cell = sample_cell();
    prune_below(&mut cell, key(0.2));
    assert_eq!(ChartEntry::default(), cell[3]);
    assert_eq!(entry(0.25, Some(BacktraceInfo::Chain(0))), cell[2]);
}

#[test]
fn fixed_size_beam() {
    let mut cell = sample_cell();
    prune_fixed_size(&mut cell, 2);
    assert_eq!(
        vec![
            entry(0.5, Some(BacktraceInfo::Term(0))),
            ChartEntry::default(),
            entry(0.25, Some(BacktraceInfo::Chain(0))),
            ChartEntry::default(),
        ],
        cell
    );

    let mut cell = sample_cell();
    prune_fixed_size(&mut cell, 1);
    assert_eq!(ChartEntry::default(), cell[2]);
    assert_eq!(entry(0.5, Some(BacktraceInfo::Term(0))), cell[0]);

    // a beam wider than the cell cuts at the least weight: nothing goes
    let mut cell = sample_cell();
    prune_fixed_size(&mut cell, 9);
    assert_eq!(sample_cell(), cell);
    let mut cell = sample_cell();
    prune_fixed_size(&mut cell, 4);
    assert_eq!(sample_cell(), cell);
}

#[test]
fn unary_closure_of_a_single_entry() {
    let mut grammar = GrammarParse::new("S".to_string());
    grammar.insert_rule(nonlexical("S", &["A"], 0.5));
    grammar.insert_rule(nonlexical("A", &["B"], 0.5));
    grammar.insert_rule(nonlexical("C", &["D"], 0.5));
    // S A B C D
    let mut cell = vec![ChartEntry::default(); 5];
    cell[2] = entry(0.5, Some(BacktraceInfo::Term(0)));
    grammar.unary_closure(&mut cell, &times);
    assert_eq!(
        vec![
            entry(0.125, Some(BacktraceInfo::Chain(1))),
            entry(0.25, Some(BacktraceInfo::Chain(2))),
            entry(0.5, Some(BacktraceInfo::Term(0))),
            ChartEntry::default(),
            ChartEntry::default(),
        ],
        cell
    );
}

#[test]
fn unary_closure_drops_entries_of_weight_zero() {
    let grammar = GrammarParse::new("S".to_string());
    let mut cell = vec![entry(0.0, Some(BacktraceInfo::Term(0)))];
    grammar.unary_closure(&mut cell, &times);
    assert_eq!(vec![ChartEntry::default()], cell);
}

#[test]
fn best_tree_is_read_off_the_chart() {
    let lookup = vec!["S".to_string(), "A".to_string()];
    let sentence = words(&["x", "y"]);
    // cells: (0,1) (1,1) (0,2), two entries each
    let chart = vec![
        entry(1.0, Some(BacktraceInfo::Chain(1))),
        entry(1.0, Some(BacktraceInfo::Term(0))),
        ChartEntry::default(),
        entry(1.0, Some(BacktraceInfo::Term(1))),
        entry(1.0, Some(BacktraceInfo::Binary(0, 3))),
        entry(1.0, Some(BacktraceInfo::Binary(2, 3))),
    ];
    let tree = GrammarParse::construct_best_tree(&chart, 4, &sentence, &lookup).unwrap();
    assert_eq!("(S (S (A x)) (A y))", tree.to_text());
    // an entry without a trace on the way gives nothing
    assert!(GrammarParse::construct_best_tree(&chart, 5, &sentence, &lookup).is_none());
    assert!(GrammarParse::construct_best_tree(&chart, 2, &sentence, &lookup).is_none());
    // traces that run in a circle give nothing
    let circle = vec![
        entry(1.0, Some(BacktraceInfo::Chain(1))),
        entry(1.0, Some(BacktraceInfo::Chain(0))),
    ];
    assert!(
        GrammarParse::construct_best_tree(&circle, 0, &words(&["x"]), &lookup).is_none()
    );
}

#[test]
fn mode_says_whether_it_prunes() {
    assert!(!CykMode::Base.is_prune());
    assert!(CykMode::PruneThreshold(key(0.5)).is_prune());
    assert!(CykMode::PruneFixedSize(2).is_prune());
}

#[test]
fn unary_closure_of_an_empty_cell_stays_empty() {
    let mut grammar = GrammarParse::new("A".to_string());
    grammar.insert_rule(nonlexical("A", &["B"], 1.0));
    grammar.insert_rule(nonlexical("B", &["A"], 1.0));
    let mut cell = vec![ChartEntry::default(); 2];
    grammar.unary_closure(&mut cell, &times);
    assert_eq!(vec![ChartEntry::default(); 2], cell);
}

#[test]
fn unary_closure_does_not_run_in_a_circle() {
    let mut grammar = GrammarParse::new("A".to_string());
    grammar.insert_rule(nonlexical("A", &["B"], 1.0));
    grammar.insert_rule(nonlexical("B", &["A"], 1.0));
    grammar.insert_rule(nonlexical("C", &["B"], 0.5));
    // A B C
    let mut cell = vec![ChartEntry::default(); 3];
    cell[0] = entry(0.5, Some(BacktraceInfo::Term(0)));
    grammar.unary_closure(&mut cell, &times);
    assert_eq!(
        vec![
            entry(0.5, Some(BacktraceInfo::Term(0))),
            entry(0.5, Some(BacktraceInfo::Chain(0))),
            entry(0.25, Some(BacktraceInfo::Chain(1))),
        ],
        cell
    );
}

#[test]
fn unary_closure_holds_the_product_with_the_final_weight() {
    let mut grammar = GrammarParse::new("S".to_string());
    grammar.insert_rule(nonlexical("S", &["A"], 0.5));
    grammar.insert_rule(nonlexical("A", &["B"], 0.5));
    // S A B
    let mut cell = vec![ChartEntry::default(); 3];
    cell[1] = entry(0.125, Some(BacktraceInfo::Binary(0, 1)));
    cell[2] = entry(0.5, Some(BacktraceInfo::Term(0)));
    grammar.unary_closure(&mut cell, &times);
    assert_eq!(
        vec![
            entry(0.125, Some(BacktraceInfo::Chain(1))),
            entry(0.25, Some(BacktraceInfo::Chain(2))),
            entry(0.5, Some(BacktraceInfo::Term(0))),
        ],
        cell
    );
}

#[test]
fn unary_closure_keeps_a_heavier_start_entry() {
    let mut grammar = GrammarParse::new("A".to_string());
    grammar.insert_rule(nonlexical("A", &["B"], 0.5));
    let mut cell = vec![
        entry(0.5, Some(BacktraceInfo::Binary(0, 1))),
        entry(0.5, Some(BacktraceInfo::Term(0))),
    ];
    grammar.unary_closure(&mut cell, &times);
    assert_eq!(
        vec![
            entry(0.5, Some(BacktraceInfo::Binary(0, 1))),
            entry(0.5, Some(BacktraceInfo::Term(0))),
        ],
        cell
    );
}

#[test]
fn unary_closure_breaks_ties_by_trace() {
    let mut grammar = GrammarParse::new("A".to_string());
    grammar.insert_rule(nonlexical("A", &["B"], 1.0));
    let mut cell = vec![
        entry(0.5, Some(BacktraceInfo::Binary(0, 1))),
        entry(0.5, Some(BacktraceInfo::Term(0))),
    ];
    grammar.unary_closure(&mut cell, &times);
    assert_eq!(
        vec![
            entry(0.5, Some(BacktraceInfo::Chain(1))),
            entry(0.5, Some(BacktraceInfo::Term(0))),
        ],
        cell
    );
}

#[test]
fn beam_cuts_each_cell_after_its_closure() {
    let mut grammar = GrammarParse::new("S".to_string());
    grammar.insert_rule(nonlexical("S", &["A"], 0.5));
    grammar.insert_rule(nonlexical("A", &["B"], 0.5));
    grammar.insert_rule(lexical("B", "w", 1.0));
    // S A B
    let sentence = words(&["w"]);
    let chart = grammar.fill_chart(&sentence, CykMode::PruneThreshold(key(0.5)), &times);
    assert_eq!(ChartEntry::default(), *chart.get(0));
    assert_eq!(entry(0.5, Some(BacktraceInfo::Chain(2))), *chart.get(1));
    assert_eq!(entry(1.0, Some(BacktraceInfo::Term(0))), *chart.get(2));
    assert!(grammar
        .cyk(&sentence, CykMode::PruneThreshold(key(0.5)), &times)
        .is_none());
    let chart = grammar.fill_chart(&sentence, CykMode::PruneFixedSize(3), &times);
    assert_eq!(entry(0.25, Some(BacktraceInfo::Chain(1))), *chart.get(0));
    let chart = grammar.fill_chart(&sentence, CykMode::PruneFixedSize(1), &times);
    assert_eq!(ChartEntry::default(), *chart.get(0));
    assert_eq!(ChartEntry::default(), *chart.get(1));
    assert_eq!(entry(1.0, Some(BacktraceInfo::Term(0))), *chart.get(2));
    let chart = grammar.fill_chart(&sentence, CykMode::PruneBoth(key(0.25), 2), &times);
    assert_eq!(ChartEntry::default(), *chart.get(0));
    assert_eq!(entry(0.5, Some(BacktraceInfo::Chain(2))), *chart.get(1));
}
