use pcfg::sentence::Sentence;

fn check_sentence() {
    let parsed = Sentence::from_str(
        "Pierre Vinken , 61 years old , will join the board as a nonexecutive director Nov. 29 .",
    )
    .unwrap();
    let manual = Sentence(
        vec![
            "Pierre",
            "Vinken",
            ",",
            "61",
            "years",
            "old",
            ",",
            "will",
            "join",
            "the",
            "board",
            "as",
            "a",
            "nonexecutive",
            "director",
            "Nov.",
            "29",
            ".",
        ]
        .drain(..)
        .map(|w| w.to_string())
        .collect(),
    );
    assert_eq!(manual, parsed);
}

#[test]
fn parser_sentence_correct() {
    check_sentence();
}

#[test]
fn sentence_sentence_correct() {
    check_sentence();
}

#[test]
fn noparse_construction() {
    let sentence = Sentence::from_str("A little test sentence .").unwrap();
    assert_eq!(
        "(NOPARSE A little test sentence .)".to_string(),
        sentence.into_noparse().to_text()
    );
}

#[test]
fn sentence_edges() {
    assert!(Sentence::from_str("").is_err());
    assert!(Sentence::from_str("  \t ").is_err());
    let one = Sentence::from_str("  word ").unwrap();
    assert_eq!(1, one.len());
    assert!(!one.is_empty());
    assert!(Sentence::<String>(vec![]).is_empty());
    let spaced = Sentence::from_str("a \t\r\n b").unwrap();
    assert_eq!(Sentence(vec!["a".to_string(), "b".to_string()]), spaced);
    // a token ends at a space or a tab only
    let odd = Sentence::from_str("a\nb c").unwrap();
    assert_eq!(Sentence(vec!["a\nb".to_string(), "c".to_string()]), odd);
    let words: Vec<&String> = spaced.iter().collect();
    assert_eq!(vec!["a", "b"], words);
}
