use pcfg::grammar::parse::GrammarParse;
use pcfg::grammar::rule::{Rule, WeightedRule};
use pcfg::sentence::Sentence;
use pcfg::sexp::SExp;
use pcfg::tree::{NodeType, Tree};
use pcfg::unk::{count_words, WordCounts};

fn tree(text: &str) -> Tree<String> {
    Tree::from(SExp::from_str(text).unwrap())
}

fn counted(texts: &[&str]) -> WordCounts {
    let mut counts = WordCounts::new();
    for text in texts {
        count_words(&tree(text), &mut counts);
    }
    counts
}

#[test]
fn words_are_counted() {
    let counts = counted(&["(S (NP the ball) (VP rolls))", "(S (NP the dog) (VP barks))"]);
    assert_eq!(5, counts.len());
    assert_eq!(2, counts.get(&"the".to_string()));
    assert_eq!(1, counts.get(&"ball".to_string()));
    assert_eq!(0, counts.get(&"cat".to_string()));
    assert_eq!(0, counts.get(&"NP".to_string()));
    assert!(counts.contains_key(&"dog".to_string()));
    assert!(!counts.contains_key(&"S".to_string()));

    let frequent = counts.above(1);
    assert_eq!(1, frequent.len());
    assert!(frequent.contains_key(&"the".to_string()));
    assert!(!frequent.contains_key(&"ball".to_string()));
    assert_eq!(2, frequent.get(&"the".to_string()));
    assert_eq!(5, counts.above(0).len());
    assert_eq!(0, counts.above(2).len());
}

#[test]
fn tree_is_unked() {
    let frequent = counted(&["(S (NP the ball) (VP rolls))", "(S (NP the dog) (VP barks))"]).above(1);
    let mut t = tree("(S (NP the Ball) (VP rolls))");
    t.unkify(&frequent);
    assert_eq!("(S (NP the UNK) (VP UNK))", t.to_text());
    // the labels of inner nodes stay, known or not
    let mut leaf = tree("word");
    leaf.unkify(&frequent);
    assert_eq!("UNK", leaf.to_text());
}

#[test]
fn tree_is_smoothed() {
    let frequent = counted(&["(S (NP the ball) (VP rolls))", "(S (NP the dog) (VP barks))"]).above(1);
    let mut t = tree("(S (NP the Ball) (VP rolls 7))");
    t.smooth(&frequent);
    assert_eq!("(S (NP the UNK-C-l) (VP UNK-L-s UNK-S-N))", t.to_text());
    let mut first = tree("(S Ball the)");
    first.smooth(&frequent);
    assert_eq!("(S UNK-SC-l the)", first.to_text());
}

fn lexical(lhs: &str, rhs: &str) -> WeightedRule<String, String, u64> {
    WeightedRule {
        rule: Rule::Lexical {
            lhs: lhs.to_string(),
            rhs: rhs.to_string(),
        },
        weight: 1.0f64.to_bits(),
    }
}

fn lexicon() -> GrammarParse {
    let mut grammar = GrammarParse::new("S".to_string());
    grammar.insert_rule(lexical("D", "the"));
    grammar.insert_rule(lexical("N", "ball"));
    grammar
}

#[test]
fn sentence_is_unked() {
    let grammar = lexicon();
    let mut sentence = Sentence::from_str("the red ball rolls").unwrap();
    let map = sentence.unkify(grammar.rules_lexical());
    assert_eq!(Sentence::from_str("the UNK ball UNK").unwrap(), sentence);
    assert_eq!(
        Some(vec![(1, "red".to_string()), (3, "rolls".to_string())]),
        map
    );
    let mut known = Sentence::from_str("the ball").unwrap();
    assert_eq!(None, known.unkify(grammar.rules_lexical()));
    assert_eq!(Sentence::from_str("the ball").unwrap(), known);
}

#[test]
fn sentence_is_smoothed() {
    let grammar = lexicon();
    let mut sentence = Sentence::from_str("Red ball Rolls 42").unwrap();
    let map = sentence.smooth(grammar.rules_lexical());
    assert_eq!(
        Sentence::from_str("UNK-SC ball UNK-C-s UNK-S-N").unwrap(),
        sentence
    );
    assert_eq!(
        Some(vec![
            (0, "Red".to_string()),
            (2, "Rolls".to_string()),
            (3, "42".to_string())
        ]),
        map
    );
    let mut known = Sentence::from_str("the ball").unwrap();
    assert_eq!(None, known.smooth(grammar.rules_lexical()));
}

#[test]
fn words_are_put_back() {
    let mut parse = Tree {
        root: NodeType::NonTerminal("NP".to_string()),
        children: vec![
            Tree {
                root: NodeType::NonTerminal("D".to_string()),
                children: vec![Tree {
                    root: NodeType::Terminal("the".to_string()),
                    children: vec![],
                }],
            },
            Tree {
                root: NodeType::NonTerminal("N".to_string()),
                children: vec![Tree {
                    root: NodeType::Terminal("UNK".to_string()),
                    children: vec![],
                }],
            },
        ],
    };
    parse.deunkify(vec![(1, "xyzzy".to_string())]);
    assert_eq!("(NP (D the) (N xyzzy))", parse.to_text());
    parse.deunkify(vec![(0, "a".to_string()), (0, "The".to_string())]);
    assert_eq!("(NP (D The) (N xyzzy))", parse.to_text());
    parse.deunkify(vec![]);
    assert_eq!("(NP (D The) (N xyzzy))", parse.to_text());
}
