use pcfg::sexp::{parse_atom, SExp};
use pcfg::tree::Tree;

#[test]
fn parser_atom_correct() {
    // Fails with brackets
    assert!(parse_atom("( a )").is_err());

    // Produces same results with whitespace
    let (_, atom) = parse_atom("a").unwrap();
    assert_eq!(atom, SExp::Atom("a".to_string()));
    let (_, atom) = parse_atom(" a ").unwrap();
    assert_eq!(atom, SExp::Atom("a".to_string()));

    // Works with special characters
    let (_, atom) = parse_atom("NP-SBJ|<,,ADJP,,>").unwrap();
    assert_eq!(atom, SExp::Atom(String::from("NP-SBJ|<,,ADJP,,>")));
}

#[test]
fn sexp_atom_correct() {
    assert!(parse_atom("( a )").is_err());

    let (_, atom) = parse_atom("a").unwrap();
    assert_eq!(atom, SExp::Atom("a".to_string()));
    let (_, atom) = parse_atom(" a ").unwrap();
    assert_eq!(atom, SExp::Atom("a".to_string()));

    let (_, atom) = parse_atom("NP-SBJ|<,,ADJP,,>").unwrap();
    assert_eq!(atom, SExp::Atom(String::from("NP-SBJ|<,,ADJP,,>")));
}

#[test]
fn atom_rest_is_what_follows() {
    let (rest, atom) = parse_atom("  ab) c  ").unwrap();
    assert_eq!(atom, SExp::Atom("ab".to_string()));
    assert_eq!(rest, ") c".to_string());
    assert!(parse_atom("").is_err());
    assert!(parse_atom("   ").is_err());
    assert!(parse_atom(")").is_err());
}

fn check_sexp_cases() {
    // Just an atom
    assert_eq!(SExp::from_str("a").unwrap(), SExp::Atom("a".to_string()));

    // With whitespace
    assert_eq!(SExp::from_str(" a ").unwrap(), SExp::Atom("a".to_string()));
    assert!(SExp::from_str(" ( a ) ").is_ok());

    // With brackets
    assert_eq!(
        SExp::from_str("(a)").unwrap(),
        SExp::List(vec![SExp::Atom("a".to_string())])
    );

    // List with multiple elements
    assert_eq!(
        SExp::from_str("(a b)").unwrap(),
        SExp::List(vec![
            SExp::Atom("a".to_string()),
            SExp::Atom("b".to_string())
        ])
    );

    // Empty list
    assert_eq!(SExp::from_str("()").unwrap(), SExp::List(vec![]));

    // Nested
    assert_eq!(
        SExp::from_str("(a (b c))").unwrap(),
        SExp::List(vec![
            SExp::Atom("a".to_string()),
            SExp::List(vec![
                SExp::Atom("b".to_string()),
                SExp::Atom("c".to_string()),
            ])
        ])
    );

    // Bracket mismatch
    assert!(SExp::from_str("(a))").is_err());

    // Nothing
    assert!(SExp::from_str("").is_err());

    // Combined
    assert!(SExp::from_str("  (   A (   A  a  ) ( A b ))").is_ok());
    assert!(SExp::from_str("( A    (   B  (  A a ) ) )").is_ok());
}

#[test]
fn parser_sexp_correct() {
    check_sexp_cases();
}

#[test]
fn sexp_sexp_correct() {
    check_sexp_cases();
}

#[test]
fn sexp_whitespace_and_blanks() {
    // an atom ends at a space or a tab only: a line feed inside stays
    assert_eq!(
        SExp::from_str("(a\nb)").unwrap(),
        SExp::List(vec![SExp::Atom("a\nb".to_string())])
    );
    // items are separated by blanks, of which several may stand
    assert_eq!(
        SExp::from_str("(a \t  b)").unwrap(),
        SExp::List(vec![
            SExp::Atom("a".to_string()),
            SExp::Atom("b".to_string())
        ])
    );
    // whitespace other than blanks is skipped before an item
    assert_eq!(
        SExp::from_str("(a \u{a0}b)").unwrap(),
        SExp::List(vec![
            SExp::Atom("a".to_string()),
            SExp::Atom("b".to_string())
        ])
    );
    assert!(SExp::from_str("(a").is_err());
    assert!(SExp::from_str("a b").is_err());
    assert!(SExp::from_str("(a)(b)").is_err());
}

#[test]
fn sexp_tree_conversion() {
    assert_eq!(
        Tree {
            root: "a".to_string(),
            children: vec![]
        },
        Tree::from(SExp::Atom("a".to_string())),
    );

    assert_eq!(
        Tree {
            root: "NP".to_string(),
            children: vec![
                Tree {
                    root: "D".to_string(),
                    children: vec![Tree {
                        root: "the".to_string(),
                        children: vec![]
                    }]
                },
                Tree {
                    root: "N".to_string(),
                    children: vec![Tree {
                        root: "ball".to_string(),
                        children: vec![]
                    }]
                },
            ]
        },
        Tree::from(SExp::List(vec![
            SExp::Atom("NP".to_string()),
            SExp::List(vec![
                SExp::Atom("D".to_string()),
                SExp::Atom("the".to_string())
            ]),
            SExp::List(vec![
                SExp::Atom("N".to_string()),
                SExp::Atom("ball".to_string())
            ])
        ])),
    );
}

#[test]
fn tree_shape_is_checked() {
    assert!(SExp::from_str("(a (b c))").unwrap().is_tree_shaped());
    assert!(SExp::from_str("a").unwrap().is_tree_shaped());
    assert!(!SExp::from_str("()").unwrap().is_tree_shaped());
    assert!(!SExp::from_str("((a) b)").unwrap().is_tree_shaped());
    assert!(!SExp::from_str("(a (b ()))").unwrap().is_tree_shaped());
}

#[test]
fn get_leaves() {
    let tree = Tree::from(SExp::from_str("(S (NP a b) c)").unwrap());
    let tree_leaves = tree.leaves();
    let mut leaves_iter = tree_leaves.iter();
    let leaf_a = leaves_iter.next().unwrap();
    assert_eq!("a".to_string(), (**leaf_a).clone());
    let leaf_b = leaves_iter.next().unwrap();
    assert_eq!("b".to_string(), (**leaf_b).clone());
    let leaf_c = leaves_iter.next().unwrap();
    assert_eq!("c".to_string(), (**leaf_c).clone());
    assert!(leaves_iter.next().is_none());
}

#[test]
fn tree_text_is_bracketed() {
    let text = "(S (NP a b) c)";
    let tree = Tree::from(SExp::from_str(text).unwrap());
    assert_eq!(text.to_string(), tree.to_text());
    let leaf = Tree::from(SExp::from_str(" x ").unwrap());
    assert_eq!("x".to_string(), leaf.to_text());
}
