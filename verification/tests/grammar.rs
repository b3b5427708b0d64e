use pcfg::grammar::rule::Rule;
use pcfg::grammar::weighted::{GrammarWeighted, Ratio};
use pcfg::sexp::SExp;
use pcfg::tree::Tree;

fn leaf(label: &str) -> Tree<String> {
    Tree {
        root: label.to_string(),
        children: vec![],
    }
}

fn node(label: &str, children: Vec<Tree<String>>) -> Tree<String> {
    Tree {
        root: label.to_string(),
        children,
    }
}

fn lexical(lhs: &str, rhs: &str) -> Rule<String, String> {
    Rule::Lexical {
        lhs: lhs.to_string(),
        rhs: rhs.to_string(),
    }
}

fn nonlexical(lhs: &str, rhs: &[&str]) -> Rule<String, String> {
    Rule::NonLexical {
        lhs: lhs.to_string(),
        rhs: rhs.iter().map(|n| n.to_string()).collect(),
    }
}

fn share(ratio: &Ratio) -> f64 {
    ratio.count as f64 / ratio.total as f64
}

#[test]
fn basic_rule_induction_from_tree() {
    let rule_set = GrammarWeighted::<u32>::from(node(
        "NP",
        vec![
            node("D", vec![leaf("the")]),
            node("N", vec![leaf("ball")]),
        ],
    ));

    assert!(rule_set.len() == 3);

    assert_eq!(rule_set.get(&nonlexical("NP", &["D", "N"])), Some(&1));

    assert_eq!(rule_set.get(&lexical("D", "the")), Some(&1));

    assert_eq!(rule_set.get(&lexical("N", "ball")), Some(&1));

    // Also works when constituent tree is a line.
    let rule_set =
        GrammarWeighted::<u32>::from(node("NP", vec![node("D", vec![leaf("the")])]));

    assert_eq!(rule_set.get(&lexical("D", "the")), Some(&1));
}

#[test]
fn rule_induction_with_duplicate() {
    let rule_set = GrammarWeighted::<u32>::from(node(
        "NP",
        vec![
            node("D", vec![leaf("the")]),
            node("D", vec![leaf("the")]),
        ],
    ));

    assert!(rule_set.len() == 2);

    assert_eq!(rule_set.get(&lexical("D", "the")), Some(&2));
}

#[test]
fn rule_normalisation() {
    let normalised_grammar = GrammarWeighted::<Ratio>::from(GrammarWeighted::<u32>::from(node(
        "NP",
        vec![
            node("NP", vec![leaf("the")]),
            node("D", vec![leaf("the")]),
        ],
    )));

    assert!(normalised_grammar.len() == 3);

    assert_eq!(
        normalised_grammar
            .get(&nonlexical("NP", &["NP", "D"]))
            .map(share),
        Some(1.0 / 2.0)
    );
    assert_eq!(
        normalised_grammar.get(&lexical("NP", "the")).map(share),
        Some(1.0 / 2.0)
    );
    assert_eq!(
        normalised_grammar.get(&lexical("D", "the")).map(share),
        Some(1.0)
    );
    assert_eq!(
        normalised_grammar.get(&lexical("NP", "the")),
        Some(&Ratio { count: 1, total: 2 })
    );
}

#[test]
fn induction_counts_in_order_of_first_sight() {
    let tree = Tree::from(SExp::from_str("(S (NP (D the) (N ball)) (VP (V is) (NP (D the) (N ball))))").unwrap());
    let grammar = GrammarWeighted::<u32>::from(tree);
    let rules: Vec<(Rule<String, String>, u32)> = grammar
        .entries()
        .iter()
        .map(|e| (e.rule.clone(), e.weight))
        .collect();
    assert_eq!(
        vec![
            (nonlexical("S", &["NP", "VP"]), 1),
            (nonlexical("NP", &["D", "N"]), 2),
            (lexical("D", "the"), 2),
            (lexical("N", "ball"), 2),
            (nonlexical("VP", &["V", "NP"]), 1),
            (lexical("V", "is"), 1),
        ],
        rules
    );
    assert!(!grammar.is_empty());
    assert_eq!(None, grammar.get(&lexical("D", "a")));
}

#[test]
fn leaf_has_no_rule_and_chain_is_not_lexical() {
    assert!(GrammarWeighted::<u32>::from(leaf("x")).is_empty());
    let grammar = GrammarWeighted::<u32>::from(node("A", vec![node("B", vec![leaf("b")])]));
    assert_eq!(Some(&1), grammar.get(&nonlexical("A", &["B"])));
    assert_eq!(Some(&1), grammar.get(&lexical("B", "b")));
    assert_eq!(2, grammar.len());
}

fn counts(grammar: &GrammarWeighted<u32>) -> Vec<(Rule<String, String>, u32)> {
    let mut all: Vec<(Rule<String, String>, u32)> = grammar
        .entries()
        .iter()
        .map(|e| (e.rule.clone(), e.weight))
        .collect();
    all.sort_by_key(|(rule, _)| format!("{:?}", rule));
    all
}

fn grammar_of(text: &str) -> GrammarWeighted<u32> {
    GrammarWeighted::<u32>::from(Tree::from(SExp::from_str(text).unwrap()))
}

#[test]
fn merge_is_commutative_and_associative_on_counts() {
    let a = "(S (NP (D the) (N ball)) (VP (V rolls)))";
    let b = "(S (NP (D a) (N ball)) (VP (V rolls)))";
    let c = "(NP (D the) (N ball))";
    let ab = grammar_of(a).merge(grammar_of(b));
    let ba = grammar_of(b).merge(grammar_of(a));
    assert_eq!(counts(&ab), counts(&ba));
    let left = grammar_of(a).merge(grammar_of(b)).merge(grammar_of(c));
    let right = grammar_of(a).merge(grammar_of(b).merge(grammar_of(c)));
    assert_eq!(counts(&left), counts(&right));
    assert_eq!(Some(&3), left.get(&lexical("N", "ball")));
    assert_eq!(Some(&2), left.get(&lexical("D", "the")));
    assert_eq!(Some(&1), left.get(&lexical("D", "a")));
}

#[test]
fn absorb_and_insert_add_counts() {
    let mut grammar = GrammarWeighted::<u32>::new();
    assert!(grammar.is_empty());
    grammar.insert(lexical("D", "the"));
    grammar.insert(lexical("D", "the"));
    grammar.insert_with_weight(lexical("N", "ball"), 5);
    assert_eq!(Some(&2), grammar.get(&lexical("D", "the")));
    assert_eq!(Some(&5), grammar.get(&lexical("N", "ball")));
    let mut other = GrammarWeighted::<u32>::new();
    other.insert_with_weight(lexical("N", "ball"), u32::MAX - 5);
    assert!(grammar.can_absorb(&other));
    other.insert(lexical("N", "ball"));
    assert!(!grammar.can_absorb(&other));
    let mut third = GrammarWeighted::<u32>::new();
    third.insert(lexical("N", "ball"));
    third.insert(lexical("V", "is"));
    grammar.absorb(third);
    assert_eq!(Some(&6), grammar.get(&lexical("N", "ball")));
    assert_eq!(Some(&1), grammar.get(&lexical("V", "is")));
    assert_eq!(3, grammar.len());
}

#[test]
fn shares_of_one_left_side_sum_to_one() {
    let tree = Tree::from(SExp::from_str("(S (NP (D the) (N ball)) (VP (V is) (NP (D a) (N ball)) (NP (N you))))").unwrap());
    let normalised = GrammarWeighted::<Ratio>::from(GrammarWeighted::<u32>::from(tree));
    for entry in normalised.entries() {
        let lhs = match &entry.rule {
            Rule::Lexical { lhs, .. } => lhs,
            Rule::NonLexical { lhs, .. } => lhs,
        };
        let mut sum: u128 = 0;
        let mut float_sum = 0.0;
        for other in normalised.entries() {
            let other_lhs = match &other.rule {
                Rule::Lexical { lhs, .. } => lhs,
                Rule::NonLexical { lhs, .. } => lhs,
            };
            if lhs == other_lhs {
                sum += other.weight.count as u128;
                float_sum += share(&other.weight);
                assert_eq!(entry.weight.total, other.weight.total);
            }
        }
        assert_eq!(entry.weight.total, sum);
        assert!((float_sum - 1.0f64).abs() < 1e-12);
    }
    assert_eq!(
        Some(&Ratio { count: 2, total: 3 }),
        normalised.get(&nonlexical("NP", &["D", "N"]))
    );
    assert_eq!(
        Some(&Ratio { count: 2, total: 3 }),
        normalised.get(&lexical("N", "ball"))
    );
}

#[test]
fn grammar_file_texts() {
    let tree = Tree::from(SExp::from_str("(S (NP (D the) (N ball)) (VP (V is) (NP (D the) (N ball))))").unwrap());
    let normalised = GrammarWeighted::<Ratio>::from(GrammarWeighted::<u32>::from(tree));
    let weights: Vec<String> = normalised
        .entries()
        .iter()
        .map(|e| share(&e.weight).to_string())
        .collect();
    assert_eq!(
        "S -> NP VP 1\nNP -> D N 1\nVP -> V NP 1\n",
        normalised.write_non_lexical_rules(&weights)
    );
    assert_eq!(
        "D the 1\nN ball 1\nV is 1\n",
        normalised.write_lexical_rules(&weights)
    );
    assert_eq!("the\nball\nis\n", normalised.write_terminals());
    let empty: GrammarWeighted<Ratio> = GrammarWeighted::default();
    assert_eq!("", empty.write_terminals());
    assert_eq!("", empty.write_lexical_rules(&vec![]));
}

#[test]
fn induced_grammar_parses_its_tree() {
    // the grammar of one tree, written and read again, parses the words of the tree
    let tree = Tree::from(SExp::from_str("(NP (D the) (N ball))").unwrap());
    let normalised = GrammarWeighted::<Ratio>::from(GrammarWeighted::<u32>::from(tree));
    let weights: Vec<String> = normalised
        .entries()
        .iter()
        .map(|e| format!("{:?}", share(&e.weight)))
        .collect();
    assert_eq!("NP -> D N 1.0\n", normalised.write_non_lexical_rules(&weights));
    assert_eq!(
        "D the 1.0\nN ball 1.0\n",
        normalised.write_lexical_rules(&weights)
    );
}
