use pcfg::grammar::cell::CykMode;
use pcfg::grammar::parse::GrammarParse;
use pcfg::grammar::rule::WeightedRule;
use pcfg::pipeline::{binarise_line, debinarise_line, finish_parse, parse_line, OovMode, Outcome};
use pcfg::sentence::Sentence;

fn times(a: u64, b: u64) -> u64 {
    (f64::from_bits(a) * f64::from_bits(b)).to_bits()
}

fn rule(line: &str) -> WeightedRule<String, String, u64> {
    let read = WeightedRule::from_str(line).unwrap();
    WeightedRule {
        rule: read.rule,
        weight: read.weight.parse::<f64>().unwrap().to_bits(),
    }
}

fn eating_grammar() -> GrammarParse {
    let mut grammar = GrammarParse::new("S".to_string());
    for line in [
        "S -> NP VP 1.0",
        "VP -> VP PP 1.0",
        "VP -> V NP 1.0",
        "PP -> P NP 1.0",
        "NP -> Det N 1.0",
        "NP -> PN 1.0",
        "VP eats 1.0",
        "PN she 1.0",
        "V eats 1.0",
        "P with 1.0",
        "N fish 1.0",
        "N fork 1.0",
        "Det a 1.0",
    ] {
        grammar.insert_rule(rule(line));
    }
    grammar
}

fn output(outcome: Outcome) -> String {
    match outcome {
        Outcome::Output(text) => text,
        other => panic!("no output: {:?}", other),
    }
}

#[test]
fn ambiguous_sentence_is_parsed() {
    let grammar = eating_grammar();
    let text = output(parse_line(
        &grammar,
        "she eats a fish with a fork",
        OovMode::Keep,
        CykMode::Base,
        &times,
    ));
    assert!(text.contains("(VP (VP (V eats) (NP (Det a) (N fish))) (PP (P with) (NP (Det a) (N fork))))"));
    assert_eq!(
        "(S (NP (PN she)) (VP (VP (V eats) (NP (Det a) (N fish))) (PP (P with) (NP (Det a) (N fork)))))",
        text
    );
}

#[test]
fn sentence_without_a_parse_falls_back() {
    let grammar = eating_grammar();
    let text = output(parse_line(
        &grammar,
        "a fish doesn't eat with a fork",
        OovMode::Keep,
        CykMode::Base,
        &times,
    ));
    assert_eq!("(NOPARSE a fish doesn't eat with a fork)", text);
}

#[test]
fn unknown_word_comes_back_in_the_output() {
    let mut grammar = eating_grammar();
    grammar.insert_rule(rule("N UNK 0.01"));
    let text = output(parse_line(
        &grammar,
        "she eats a xyzzy with a fork",
        OovMode::Unk,
        CykMode::Base,
        &times,
    ));
    assert_eq!(
        "(S (NP (PN she)) (VP (VP (V eats) (NP (Det a) (N xyzzy))) (PP (P with) (NP (Det a) (N fork)))))",
        text
    );
    assert!(!text.contains("UNK"));

    // without a rule for the replacement there is no parse, and the words still come back
    let bare = eating_grammar();
    let text = output(parse_line(
        &bare,
        "she eats a xyzzy with a fork",
        OovMode::Unk,
        CykMode::Base,
        &times,
    ));
    assert_eq!("(NOPARSE she eats a xyzzy with a fork)", text);

    // and without replacing, the word has no rule
    let text = output(parse_line(
        &grammar,
        "she eats a xyzzy with a fork",
        OovMode::Keep,
        CykMode::Base,
        &times,
    ));
    assert_eq!("(NOPARSE she eats a xyzzy with a fork)", text);
}

#[test]
fn unknown_word_is_smoothed_for_decoding() {
    let mut grammar = eating_grammar();
    grammar.insert_rule(rule("N UNK-L-y 0.01"));
    let text = output(parse_line(
        &grammar,
        "she eats a xyzzy with a fork",
        OovMode::Smooth,
        CykMode::PruneThreshold(0.001f64.to_bits()),
        &times,
    ));
    assert_eq!(
        "(S (NP (PN she)) (VP (VP (V eats) (NP (Det a) (N xyzzy))) (PP (P with) (NP (Det a) (N fork)))))",
        text
    );
}

#[test]
fn line_without_words_is_malformed() {
    let grammar = eating_grammar();
    assert_eq!(
        Outcome::Malformed,
        parse_line(&grammar, "   ", OovMode::Keep, CykMode::Base, &times)
    );
}

#[test]
fn finish_parse_takes_what_the_decoder_gave() {
    let sentence = Sentence::from_str("UNK ball").unwrap();
    let tree = finish_parse(sentence, Some(vec![(0, "The".to_string())]), None);
    assert_eq!("(NOPARSE The ball)", tree.to_text());
    let sentence = Sentence::from_str("the ball").unwrap();
    let tree = finish_parse(sentence, None, None);
    assert_eq!("(NOPARSE the ball)", tree.to_text());
}

#[test]
fn line_is_binarised_and_back() {
    let line = "(ROOT (FRAG (RB Not) (NP-TMP (DT this) (NN year)) (. .)))";
    let binarised = output(binarise_line(line, 1, 999));
    assert_eq!(
        "(ROOT (FRAG (RB Not) (FRAG|<NP-TMP,.> (NP-TMP (DT this) (NN year)) (. .))))",
        binarised
    );
    assert_eq!(line, output(debinarise_line(&binarised)));

    let vertical = output(binarise_line(line, 3, 999));
    assert_eq!(
        "(ROOT (FRAG^<ROOT> (RB Not) (FRAG|<NP-TMP,.>^<ROOT> (NP-TMP^<FRAG,ROOT> (DT this) (NN year)) (. .))))",
        vertical
    );
    assert_eq!(line, output(debinarise_line(&vertical)));
}

#[test]
fn lines_that_cannot_be_transformed() {
    assert_eq!(Outcome::Malformed, binarise_line("(a", 1, 999));
    assert_eq!(Outcome::NotATree, binarise_line("((a) b)", 1, 999));
    assert_eq!(Outcome::NotATree, binarise_line("()", 1, 999));
    assert_eq!(Outcome::BadLabel, binarise_line("(a|b (c d))", 1, 999));
    assert_eq!(Outcome::Malformed, debinarise_line("a b"));
    assert_eq!(Outcome::NotATree, debinarise_line("(a ())"));
    assert_eq!(Outcome::BadLabel, debinarise_line("(a (b|<c d))"));
    // a node over leaves only is not read as a label when binarising
    assert_eq!(
        "(a|b c d)",
        output(binarise_line("(a|b c d)", 1, 999))
    );
}
