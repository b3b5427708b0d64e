use pcfg::grammar::lines::{read_rule, scan_floats, FloatScan};
use pcfg::grammar::rule::{Rule, WeightedRule};

fn weight_of(rule: &WeightedRule<String, String, String>) -> f64 {
    rule.weight.parse::<f64>().unwrap()
}

fn check_rule_cases() {
    // basic lexical
    let parsed = WeightedRule::from_str("IN before 0.01694915254237288").unwrap();
    let rule = Rule::Lexical {
        lhs: "IN".to_string(),
        rhs: "before".to_string(),
    };
    assert_eq!(rule, parsed.rule);
    assert_eq!(0.01694915254237288, weight_of(&parsed));

    // lexical fails with less or more
    assert!(WeightedRule::from_str("IN before extra 0.01694915254237288").is_err());
    assert!(WeightedRule::from_str("SHORT 0.01694915254237288").is_err());

    // basic non-lexical
    let parsed = WeightedRule::from_str("ADJP -> JJ JJ 0.14285714285714285").unwrap();
    let rule = Rule::NonLexical {
        lhs: "ADJP".to_string(),
        rhs: vec!["JJ".to_string(), "JJ".to_string()],
    };
    assert_eq!(rule, parsed.rule);
    assert_eq!(0.14285714285714285, weight_of(&parsed));

    // fails with empty LHS or over-full RHS
    // note: empty RHS is permitted, as it would be interpreted as a
    //       lexical rule with "->" as a terminal
    assert!(WeightedRule::from_str("-> JJ JJ 0.14285714285714285").is_err());
    assert!(WeightedRule::from_str("ADJP EXTRA -> JJ JJ 0.14285714285714285").is_err());
}

#[test]
fn rule_rule_correct() {
    check_rule_cases();
}

#[test]
fn parser_rule_correct() {
    check_rule_cases();
}

#[test]
fn rule_line_edges() {
    // an arrow alone on the right is a word
    let parsed = WeightedRule::from_str("A -> 0.5").unwrap();
    assert_eq!(
        Rule::Lexical {
            lhs: "A".to_string(),
            rhs: "->".to_string()
        },
        parsed.rule
    );
    assert_eq!("0.5", parsed.weight);

    // whitespace around the line and several blanks between the tokens
    let parsed = WeightedRule::from_str("  NP  ->   D \t N    1e-3 \r").unwrap();
    assert_eq!(
        Rule::NonLexical {
            lhs: "NP".to_string(),
            rhs: vec!["D".to_string(), "N".to_string()]
        },
        parsed.rule
    );
    assert_eq!("1e-3", parsed.weight);

    // the first number ends the right side
    assert!(WeightedRule::from_str("A -> B 12 C 0.5").is_err());
    let parsed = WeightedRule::from_str("A -> B1 C 0.5").unwrap();
    assert_eq!(
        Rule::NonLexical {
            lhs: "A".to_string(),
            rhs: vec!["B1".to_string(), "C".to_string()]
        },
        parsed.rule
    );

    // something behind the weight, a broken exponent, nothing at all
    assert!(WeightedRule::from_str("A b 0.5x").is_err());
    assert!(WeightedRule::from_str("A b 1e").is_err());
    assert!(WeightedRule::from_str("A -> 1e B 0.5").is_err());
    assert!(WeightedRule::from_str("").is_err());
    assert!(WeightedRule::from_str("A").is_err());
    assert!(WeightedRule::from_str("A b").is_err());

    // the words for numbers that are none
    assert_eq!("inf", WeightedRule::from_str("A b inf").unwrap().weight);
    assert_eq!("NaN", WeightedRule::from_str("A b NaN").unwrap().weight);
    assert_eq!("-.5", WeightedRule::from_str("A b -.5").unwrap().weight);
}

#[test]
fn numbers_are_found_where_they_stand() {
    let text: Vec<char> = "A b 0.25".chars().collect();
    let scans = scan_floats(&text);
    assert_eq!(
        vec![
            FloatScan::Absent,
            FloatScan::Absent,
            FloatScan::Absent,
            FloatScan::Absent,
            FloatScan::Found(4),
            FloatScan::Found(3),
            FloatScan::Found(2),
            FloatScan::Found(1),
            FloatScan::Absent,
        ],
        scans
    );
    let broken: Vec<char> = "1e+".chars().collect();
    assert_eq!(FloatScan::Broken, scan_floats(&broken)[0]);
}

#[test]
fn rule_is_read_from_given_scans() {
    let text: Vec<char> = "A b w".chars().collect();
    let absent = vec![FloatScan::Absent; 6];
    assert!(read_rule(&text, &absent).is_err());

    let mut scans = absent.clone();
    scans[4] = FloatScan::Found(1);
    let parsed = read_rule(&text, &scans).unwrap();
    assert_eq!(
        Rule::Lexical {
            lhs: "A".to_string(),
            rhs: "b".to_string()
        },
        parsed.rule
    );
    assert_eq!("w", parsed.weight);

    let mut scans = absent.clone();
    scans[4] = FloatScan::Broken;
    assert!(read_rule(&text, &scans).is_err());

    let arrow: Vec<char> = "A -> b c w".chars().collect();
    let mut scans = vec![FloatScan::Absent; 11];
    scans[9] = FloatScan::Found(1);
    let parsed = read_rule(&arrow, &scans).unwrap();
    assert_eq!(
        Rule::NonLexical {
            lhs: "A".to_string(),
            rhs: vec!["b".to_string(), "c".to_string()]
        },
        parsed.rule
    );
    // the lexical form comes first: a number behind the arrow makes the arrow a word
    let mut scans = vec![FloatScan::Absent; 11];
    scans[5] = FloatScan::Found(5);
    let parsed = read_rule(&arrow, &scans).unwrap();
    assert_eq!(
        Rule::Lexical {
            lhs: "A".to_string(),
            rhs: "->".to_string()
        },
        parsed.rule
    );
    assert_eq!("b c w", parsed.weight);
    // a number right behind the arrow leaves the right side empty
    let tight: Vec<char> = "A ->w".chars().collect();
    let mut scans = vec![FloatScan::Absent; 6];
    scans[4] = FloatScan::Found(1);
    let parsed = read_rule(&tight, &scans).unwrap();
    assert_eq!(
        Rule::NonLexical {
            lhs: "A".to_string(),
            rhs: vec![]
        },
        parsed.rule
    );
    assert_eq!("w", parsed.weight);
}

#[test]
fn rule_heads() {
    let rule = Rule::NonLexical {
        lhs: "ADJP".to_string(),
        rhs: vec!["JJ".to_string(), "NN".to_string()],
    };
    assert_eq!("ADJP -> JJ NN ", rule.head_text());
    assert!(!rule.is_lexical());
    let rule = Rule::Lexical {
        lhs: "IN".to_string(),
        rhs: "before".to_string(),
    };
    assert_eq!("IN before ", rule.head_text());
    assert!(rule.is_lexical());
    let line = format!("{}{}", rule.head_text(), 0.5);
    let back = WeightedRule::from_str(&line).unwrap();
    assert_eq!(rule, back.rule);
}
