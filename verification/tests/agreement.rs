use nom::branch::alt;
use nom::bytes::complete::{is_not, tag};
use nom::character::complete::{char, multispace0, multispace1};
use nom::combinator::{all_consuming, opt};
use nom::multi::{many_till, separated_list0, separated_list1};
use nom::number::complete::double;
use nom::sequence::{delimited, preceded, separated_pair, terminated, tuple};
use nom::{Finish, IResult};

use pcfg::binarized::node::{Binarized, MarkovizedNode};
use pcfg::grammar::rule::{Rule, WeightedRule};
use pcfg::sentence::Sentence;
use pcfg::sexp::SExp;

// The grammars of the texts, written with parser combinators. The readers
// of the library are held against them on every text over a small alphabet.

fn label_bare(input: &str) -> IResult<&str, Binarized<String>> {
    all_consuming(is_not("|^"))(input).map(|(i, o)| (i, Binarized::Bare(o.to_string())))
}

fn label_annotated(input: &str) -> IResult<&str, Binarized<String>> {
    tuple((
        is_not("|^"),
        opt(preceded(
            tag("|"),
            delimited(
                tag("<"),
                separated_list0(tag(","), alt((tag(","), is_not("|^<>,")))),
                tag(">"),
            ),
        )),
        opt(preceded(
            tag("^"),
            delimited(
                tag("<"),
                separated_list0(tag(","), alt((tag(","), is_not("|^<>,")))),
                tag(">"),
            ),
        )),
    ))(input)
    .map(|(i, (label, children, ancestors))| {
        (
            i,
            Binarized::Markovized(MarkovizedNode {
                label: label.to_string(),
                children: children
                    .map(|v| v.iter().map(|s| s.to_string()).collect())
                    .unwrap_or_default(),
                ancestors: ancestors
                    .map(|v| v.iter().map(|s| s.to_string()).collect())
                    .unwrap_or_default(),
            }),
        )
    })
}

fn label(s: &str) -> Option<Binarized<String>> {
    all_consuming(alt((label_bare, label_annotated)))(s.trim())
        .finish()
        .ok()
        .map(|(_, l)| l)
}

fn sexp_any(input: &str) -> IResult<&str, SExp<String>> {
    alt((
        delimited(char('('), sexp_list, preceded(multispace0, char(')'))),
        sexp_atom,
    ))(input.trim())
}

fn sexp_list(input: &str) -> IResult<&str, SExp<String>> {
    separated_list0(multispace1, sexp_any)(input.trim()).map(|(i, o)| (i, SExp::List(o)))
}

fn sexp_atom(input: &str) -> IResult<&str, SExp<String>> {
    is_not("() \t")(input.trim()).map(|(i, o): (&str, &str)| (i, SExp::Atom(o.to_string())))
}

fn sexp(s: &str) -> Option<SExp<String>> {
    all_consuming(sexp_any)(s).finish().ok().map(|(_, e)| e)
}

fn sentence_words(input: &str) -> IResult<&str, Vec<&str>> {
    separated_list1(multispace1, is_not(" \t"))(input.trim())
}

fn sentence(s: &str) -> Option<Sentence<String>> {
    all_consuming(sentence_words)(s)
        .finish()
        .ok()
        .map(|(_, words)| Sentence(words.iter().map(|w| w.to_string()).collect()))
}

type Weighted = (Rule<String, String>, f64);

fn rule_lexical(input: &str) -> IResult<&str, Weighted> {
    tuple((
        terminated(is_not(" \t"), multispace1),
        terminated(is_not(" \t"), multispace1),
        terminated(double, multispace0),
    ))(input)
    .map(|(i, (n, t, weight)): (&str, (&str, &str, f64))| {
        (
            i,
            (
                Rule::Lexical {
                    lhs: n.to_string(),
                    rhs: t.to_string(),
                },
                weight,
            ),
        )
    })
}

fn rule_rhs(input: &str) -> IResult<&str, (Vec<String>, f64)> {
    many_till(terminated(is_not(" \t"), multispace1), double)(input.trim())
        .map(|(i, (rhs, w)): (&str, (Vec<&str>, f64))| {
            (i, (rhs.iter().map(|n| n.to_string()).collect(), w))
        })
}

fn rule_nonlexical(input: &str) -> IResult<&str, Weighted> {
    separated_pair(
        terminated(is_not(" \t"), multispace1),
        tag("->"),
        rule_rhs,
    )(input)
    .map(|(i, (n, (rhs, weight))): (&str, (&str, (Vec<String>, f64)))| {
        (
            i,
            (
                Rule::NonLexical {
                    lhs: n.to_string(),
                    rhs,
                },
                weight,
            ),
        )
    })
}

fn rule_any(input: &str) -> IResult<&str, Weighted> {
    alt((rule_lexical, rule_nonlexical))(input.trim())
}

fn rule(s: &str) -> Option<Weighted> {
    all_consuming(rule_any)(s).finish().ok().map(|(_, r)| r)
}

/// Calls `check` on every text of at most `longest` characters of `alphabet`.
fn for_every_text(alphabet: &[char], longest: usize, check: &dyn Fn(&str)) {
    let mut text = String::new();
    every_text(alphabet, longest, &mut text, check);
}

fn every_text(alphabet: &[char], left: usize, text: &mut String, check: &dyn Fn(&str)) {
    check(text);
    if left > 0 {
        for c in alphabet {
            text.push(*c);
            every_text(alphabet, left - 1, text, check);
            text.pop();
        }
    }
}

#[test]
fn labels_are_read_as_the_grammar_says() {
    for_every_text(&['a', '|', '^', '<', '>', ',', ' '], 6, &|text| {
        assert_eq!(label(text), Binarized::from_str(text).ok(), "{:?}", text);
    });
    for text in ["NP-SBJ|<,,ADJP,,>", "l|<a,b>^<c,d>x", "\u{a0}l|<é>\n", "l^<a>|<b>", "l|<a>|<b>"] {
        assert_eq!(label(text), Binarized::from_str(text).ok(), "{:?}", text);
    }
}

#[test]
fn s_expressions_are_read_as_the_grammar_says() {
    for_every_text(&['a', '(', ')', ' ', '\t', '\n'], 6, &|text| {
        assert_eq!(sexp(text), SExp::from_str(text).ok(), "{:?}", text);
    });
    for text in [
        "(a (b c) (d (e f)))",
        "(a\u{a0}b)",
        "(a \u{a0} b)",
        "(a\r\nb)",
        "( a\t( b ) )\n",
        "(a (b",
        "\u{3000}(a)\u{3000}",
    ] {
        assert_eq!(sexp(text), SExp::from_str(text).ok(), "{:?}", text);
    }
}

#[test]
fn sentences_are_read_as_the_grammar_says() {
    for_every_text(&['a', 'b', ' ', '\t', '\n', '\r'], 6, &|text| {
        assert_eq!(sentence(text), Sentence::from_str(text).ok(), "{:?}", text);
    });
    for text in ["a \u{a0} b", "\u{a0}a\u{a0}", "a\u{2003}b c"] {
        assert_eq!(sentence(text), Sentence::from_str(text).ok(), "{:?}", text);
    }
}

fn check_rule(text: &str) {
    let read = WeightedRule::from_str(text)
        .ok()
        .map(|r| (r.rule, r.weight.parse::<f64>().unwrap()));
    match (rule(text), read) {
        (None, None) => {}
        (Some((r1, w1)), Some((r2, w2))) => {
            assert_eq!(r1, r2, "{:?}", text);
            assert!(w1 == w2 || (w1.is_nan() && w2.is_nan()), "{:?}", text);
        }
        (a, b) => panic!("{:?}: {:?} and {:?}", text, a, b),
    }
}

#[test]
fn rules_are_read_as_the_grammar_says() {
    for_every_text(&['A', ' ', '-', '>', '1', '.', 'e'], 6, &check_rule);
    for_every_text(&['A', ' ', '1', '\t', '\n', 'n', 'a'], 6, &check_rule);
    for text in [
        "ADJP -> JJ JJ 0.14285714285714285",
        "IN before 0.01694915254237288",
        "A -> B C 1e-3",
        "A -> B C 1e",
        "A -> 1e B 0.5",
        "A b inf",
        "A b infinity",
        "A b +.5e+3 ",
        "A -> inf B 1",
        "A -> B nan",
        "A\u{a0}-> B 1",
        "A ->\u{a0}B 1",
        "A -> B\u{a0}1",
        "A b 1 2",
        " A  b \t 0.5\r\n",
    ] {
        check_rule(text);
    }
}
