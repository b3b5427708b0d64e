use pcfg::grammar::intified::GrammarIntified;
use pcfg::grammar::rule::{Rule, WeightedRule};

fn lexical(lhs: &str, rhs: &str, weight: u32) -> WeightedRule<String, String, u32> {
    WeightedRule {
        rule: Rule::Lexical {
            lhs: lhs.to_string(),
            rhs: rhs.to_string(),
        },
        weight,
    }
}

fn nonlexical(lhs: &str, rhs: &[&str], weight: u32) -> WeightedRule<String, String, u32> {
    WeightedRule {
        rule: Rule::NonLexical {
            lhs: lhs.to_string(),
            rhs: rhs.iter().map(|n| n.to_string()).collect(),
        },
        weight,
    }
}

#[test]
fn rules_are_numbered() {
    let mut grammar: GrammarIntified<u32> = GrammarIntified::new("ROOT".to_string());
    assert_eq!(0, grammar.initial_nonterminal());
    grammar.insert_rule(nonlexical("S", &["NP", "VP", "NP"], 3));
    grammar.insert_rule(lexical("NP", "she", 5));
    grammar.insert_rule(nonlexical("ROOT", &["S"], 7));
    assert_eq!(&vec!["ROOT", "S", "NP", "VP"], grammar.lookup());
    assert_eq!(
        &vec![
            Rule::NonLexical {
                lhs: 1u32,
                rhs: vec![2, 3, 2]
            },
            Rule::Lexical {
                lhs: 2u32,
                rhs: "she".to_string()
            },
            Rule::NonLexical {
                lhs: 0u32,
                rhs: vec![1]
            },
        ],
        grammar.rules()
    );
    assert_eq!(Some(&5), grammar.weighted().get(&lexical("NP", "she", 0).rule));

    // a rule that is there gets the new weight and keeps its place
    grammar.insert_rule(lexical("NP", "she", 9));
    assert_eq!(3, grammar.rules().len());
    assert_eq!(Some(&9), grammar.weighted().get(&lexical("NP", "she", 0).rule));
    assert_eq!(4, grammar.lookup().len());
}
