use pcfg::binarized::markovize::augment_parents;
use pcfg::binarized::node::{Binarized, MarkovizedNode};
use pcfg::sexp::SExp;
use pcfg::tree::Tree;

fn s(text: &str) -> String {
    text.to_string()
}

fn check_node_print() {
    let bare = MarkovizedNode {
        label: s("label"),
        children: vec![],
        ancestors: vec![],
    };

    assert_eq!("label".to_string(), bare.to_text());

    let single = MarkovizedNode {
        label: s("label"),
        children: vec![s("parent")],
        ancestors: vec![s("ancestor")],
    };

    assert_eq!("label|<parent>^<ancestor>".to_string(), single.to_text());

    let multiple = MarkovizedNode {
        label: s("label"),
        children: vec![s("p1"), s("p2")],
        ancestors: vec![s("a1"), s("a2")],
    };

    assert_eq!("label|<p1,p2>^<a1,a2>".to_string(), multiple.to_text());
}

#[test]
fn binarize_markovized_node_print() {
    check_node_print();
}

#[test]
fn node_markovized_node_print() {
    check_node_print();
}

fn check_parse_common() {
    assert_eq!(
        Binarized::Bare(s("label")),
        Binarized::from_str("label").unwrap()
    );

    assert_eq!(
        Binarized::Markovized(MarkovizedNode {
            label: s("label"),
            children: vec![s("parent")],
            ancestors: vec![s("ancestor")]
        }),
        Binarized::from_str("label|<parent>^<ancestor>").unwrap()
    );

    assert_eq!(
        Binarized::Markovized(MarkovizedNode {
            label: s("label"),
            children: vec![s("parent")],
            ancestors: vec![]
        }),
        Binarized::from_str("label|<parent>").unwrap()
    );

    assert_eq!(
        Binarized::Markovized(MarkovizedNode {
            label: s("label"),
            children: vec![],
            ancestors: vec![s("ancestor")]
        }),
        Binarized::from_str("label^<ancestor>").unwrap()
    );

    assert_eq!(
        Binarized::Markovized(MarkovizedNode {
            label: s("label"),
            children: vec![s("p1"), s("p2")],
            ancestors: vec![s("a1"), s("a2")]
        }),
        Binarized::from_str("label|<p1,p2>^<a1,a2>").unwrap()
    );
}

#[test]
fn binarize_binarized_parse() {
    check_parse_common();
}

#[test]
fn node_binarized_parse() {
    check_parse_common();

    assert_eq!(
        Binarized::Markovized(MarkovizedNode {
            label: s("label"),
            children: vec![s(","), s("p")],
            ancestors: vec![s("p"), s(",")]
        }),
        Binarized::from_str("label|<,,p>^<p,,>").unwrap()
    );
}

#[test]
fn label_text_that_denotes_nothing() {
    assert!(Binarized::from_str("").is_err());
    assert!(Binarized::from_str("   ").is_err());
    assert!(Binarized::from_str("|<a>").is_err());
    assert!(Binarized::from_str("l|<a").is_err());
    assert!(Binarized::from_str("l|a").is_err());
    assert!(Binarized::from_str("l^<a>|<b>").is_err());
    assert!(Binarized::from_str("l|<a>x").is_err());
    assert!(Binarized::from_str("l|<a,,b>").is_err());
}

#[test]
fn label_text_edge_cases() {
    // whitespace around the text does not count
    assert_eq!(
        Binarized::Bare(s("NP")),
        Binarized::from_str("  NP\t").unwrap()
    );
    // an annotation may hold no symbol
    assert_eq!(
        Binarized::Markovized(MarkovizedNode {
            label: s("l"),
            children: vec![],
            ancestors: vec![]
        }),
        Binarized::from_str("l|<>").unwrap()
    );
    // a lone comma is a symbol
    assert_eq!(
        Binarized::Markovized(MarkovizedNode {
            label: s("l"),
            children: vec![s(",")],
            ancestors: vec![]
        }),
        Binarized::from_str("l|<,>").unwrap()
    );
}

#[test]
fn label_round_trip_on_values() {
    let labels = vec![
        Binarized::Bare(s("NP-TMP")),
        Binarized::Markovized(MarkovizedNode {
            label: s("FRAG"),
            children: vec![s("NP-TMP"), s(".")],
            ancestors: vec![],
        }),
        Binarized::Markovized(MarkovizedNode {
            label: s("NP"),
            children: vec![],
            ancestors: vec![s("FRAG"), s("ROOT")],
        }),
        Binarized::Markovized(MarkovizedNode {
            label: s("S"),
            children: vec![s("B"), s("C"), s("D")],
            ancestors: vec![s("X")],
        }),
    ];
    for label in labels {
        assert_eq!(label, Binarized::from_str(&label.to_text()).unwrap());
    }
}

#[test]
fn markedness_and_symbol() {
    let spine = Binarized::from_str("S|<B,C>^<ROOT>").unwrap();
    assert!(spine.is_markovized());
    assert_eq!(&s("S"), spine.extract_label());
    let vertical = Binarized::from_str("S^<ROOT>").unwrap();
    assert!(!vertical.is_markovized());
    assert_eq!(&s("S"), vertical.extract_label());
    let bare = Binarized::Bare(s("S"));
    assert!(!bare.is_markovized());
    assert_eq!(&s("S"), bare.extract_label());
}

fn tree(text: &str) -> Tree<String> {
    Tree::from(SExp::from_str(text).unwrap())
}

#[test]
fn debinarize_successful() {
    let binarized_tree = tree("(ROOT (FRAG^<ROOT> (RB (Not)) (FRAG|<NP-TMP,.>^<ROOT> (NP-TMP^<FRAG,ROOT> (DT (this)) (NN (year))) (. (.)))))");
    let binarized_tree = binarized_tree.parse_markovized();
    assert_eq!(
        "(ROOT (FRAG (RB Not) (NP-TMP (DT this) (NN year)) (. .)))".to_string(),
        binarized_tree.debinarize().to_text()
    );

    let binarized_tree2 = tree(
        "(S (A (A1 a) (A|<A2,A3> (A2 a) (A3 a))) (S|<B,C,D> (B b) (S|<C,D> (C c) (D d))))",
    );
    let binarized_tree2 = binarized_tree2.parse_markovized();
    assert_eq!(
        "(S (A (A1 a) (A2 a) (A3 a)) (B b) (C c) (D d))".to_string(),
        binarized_tree2.debinarize().to_text()
    );

    let binarized_tree3 = tree("(S (A a) (S|<B,C,D> (B^<S> (BB^<B,S> (BBB^<BB,B> (B1 b) (BBB|<B2,B3>^<BB,B> (B2 b) (B3 b))))) (S|<C,D> (C c) (D d))))");
    let binarized_tree3 = binarized_tree3.parse_markovized();
    assert_eq!(
        "(S (A a) (B (BB (BBB (B1 b) (B2 b) (B3 b)))) (C c) (D d))".to_string(),
        binarized_tree3.debinarize().to_text()
    );
}

#[test]
fn markovization_valid() {
    let tree = tree("(ROOT (FRAG (RB Not) (NP-TMP (DT this) (NN year)) (. .)))");

    let markovized_tree = tree.clone().markovize(4, 999, &[]);
    assert_eq!("(ROOT (FRAG^<ROOT> (RB Not) (FRAG|<NP-TMP,.>^<ROOT> (NP-TMP^<FRAG,ROOT> (DT this) (NN year)) (. .))))".to_string(), markovized_tree.to_text());

    let markovized_tree2 = tree.clone().markovize(2, 999, &[]);
    assert_eq!("(ROOT (FRAG^<ROOT> (RB Not) (FRAG|<NP-TMP,.>^<ROOT> (NP-TMP^<FRAG> (DT this) (NN year)) (. .))))".to_string(), markovized_tree2.to_text());

    let markovized_tree3 = tree.clone().markovize(1, 999, &[]);
    assert_eq!(
        "(ROOT (FRAG (RB Not) (FRAG|<NP-TMP,.> (NP-TMP (DT this) (NN year)) (. .))))"
            .to_string(),
        markovized_tree3.to_text()
    );

    let markovized_tree4 = tree.clone().markovize(1, 1, &[]);
    assert_eq!(
        "(ROOT (FRAG (RB Not) (FRAG|<NP-TMP> (NP-TMP (DT this) (NN year)) (. .))))".to_string(),
        markovized_tree4.to_text()
    );

    let markovized_tree5 = tree.markovize(1, 0, &[]);
    assert_eq!(
        "(ROOT (FRAG (RB Not) (FRAG (NP-TMP (DT this) (NN year)) (. .))))".to_string(),
        markovized_tree5.to_text()
    );

    let markovized_tree6 =
        self::tree("(S (A a) (B (BB (BBB (B1 b) (B2 b) (B3 b)))) (C c) (D d))")
            .markovize(1, 999, &[]);
    assert_eq!(
        "(S (A a) (S|<B,C,D> (B (BB (BBB (B1 b) (BBB|<B2,B3> (B2 b) (B3 b))))) (S|<C,D> (C c) (D d))))".to_string(),
        markovized_tree6.to_text()
    );
}

#[test]
fn markovize_then_debinarize_gives_the_tree_back() {
    let text = "(ROOT (FRAG (RB Not) (NP-TMP (DT this) (NN year)) (. .)))";
    for v in 0..5 {
        for h in 1..4 {
            let back = tree(text).markovize(v, h, &[]).debinarize();
            assert_eq!(text.to_string(), back.to_text());
            assert_eq!(tree(text), back);
        }
    }
}

#[test]
fn markovize_through_text_gives_the_tree_back() {
    let text = "(S (A a) (B (BB (BBB (B1 b) (B2 b) (B3 b)))) (C c) (D d))";
    let written = tree(text).markovize(3, 2, &[]).to_text();
    let back = tree(&written).parse_markovized().debinarize();
    assert_eq!(text.to_string(), back.to_text());
}

#[test]
fn markovize_preterminal_is_bare() {
    let out = tree("(NP the ball)").markovize(1, 0, &[]);
    assert_eq!(
        Tree {
            root: Binarized::Bare(s("NP")),
            children: vec![
                Tree {
                    root: Binarized::Bare(s("the")),
                    children: vec![]
                },
                Tree {
                    root: Binarized::Bare(s("ball")),
                    children: vec![]
                },
            ],
        },
        out
    );
}

#[test]
fn markovize_binary_node_has_no_spine() {
    let out = tree("(S (NP a) (VP b))").markovize(1, 999, &[]);
    assert_eq!(2, out.children.len());
    assert!(!out.children[0].root.is_markovized());
    assert!(!out.children[1].root.is_markovized());
    assert_eq!("(S (NP a) (VP b))".to_string(), out.to_text());
}

#[test]
fn augment_parents_shifts() {
    let parents = vec![s("B"), s("C")];
    assert_eq!(Vec::<String>::new(), augment_parents(&parents, s("A"), 0));
    assert_eq!(Vec::<String>::new(), augment_parents(&parents, s("A"), 1));
    assert_eq!(vec![s("A")], augment_parents(&parents, s("A"), 2));
    assert_eq!(vec![s("A"), s("B")], augment_parents(&parents, s("A"), 3));
    assert_eq!(
        vec![s("A"), s("B"), s("C")],
        augment_parents(&parents, s("A"), 4)
    );
    assert_eq!(
        vec![s("A"), s("B"), s("C")],
        augment_parents(&parents, s("A"), 9)
    );
}

#[test]
fn markovize_wide_node_gives_the_tree_back() {
    let texts = [
        "(S (A a) (B b) (C c) (D d))",
        "(S (A a) (B b) (C c) (D d) (E e))",
        "(S (A (A1 a) (A2 a) (A3 a) (A4 a)) (B b) (C c) (D d))",
        "(S (A a) b (C c) d (E e))",
    ];
    for text in texts {
        for v in 0..5 {
            for h in 1..6 {
                let back = tree(text).markovize(v, h, &[]).debinarize();
                assert_eq!(tree(text), back);
                assert_eq!(text.to_string(), back.to_text());
            }
        }
    }
}

#[test]
fn spine_nodes_name_their_siblings() {
    let out = tree("(S (A a) (B b) (C c) (D d))").markovize(1, 999, &[]);
    assert_eq!(Binarized::Bare(s("S")), out.root);
    assert_eq!(2, out.children.len());
    let first = &out.children[1];
    assert!(first.root.is_markovized());
    assert_eq!(
        Binarized::Markovized(MarkovizedNode {
            label: s("S"),
            children: vec![s("B"), s("C"), s("D")],
            ancestors: vec![],
        }),
        first.root
    );
    assert_eq!(2, first.children.len());
    let second = &first.children[1];
    assert_eq!(
        Binarized::Markovized(MarkovizedNode {
            label: s("S"),
            children: vec![s("C"), s("D")],
            ancestors: vec![],
        }),
        second.root
    );
    assert_eq!(
        "(S (A a) (S|<B,C,D> (B b) (S|<C,D> (C c) (D d))))".to_string(),
        out.to_text()
    );
}

#[test]
fn spine_nodes_keep_the_ancestors_of_their_node() {
    let out = tree("(R (S (A a) (B b) (C c) (D d)))").markovize(2, 1, &[]);
    let node = &out.children[0];
    assert_eq!(
        Binarized::Markovized(MarkovizedNode {
            label: s("S"),
            children: vec![],
            ancestors: vec![s("R")],
        }),
        node.root
    );
    assert_eq!(
        Binarized::Markovized(MarkovizedNode {
            label: s("S"),
            children: vec![s("B")],
            ancestors: vec![s("R")],
        }),
        node.children[1].root
    );
    assert_eq!(
        "(R (S^<R> (A a) (S|<B>^<R> (B b) (S|<C>^<R> (C c) (D d)))))".to_string(),
        out.to_text()
    );
}

#[test]
fn node_without_annotation_is_bare() {
    let out = tree("(S (NP (D a)) (VP (V b)))").markovize(1, 999, &[]);
    assert_eq!(Binarized::Bare(s("S")), out.root);
    assert_eq!(Binarized::Bare(s("NP")), out.children[0].root);
    let out = tree("(S (NP (D a)) (VP (V b)))").markovize(2, 999, &[]);
    assert_eq!(Binarized::Bare(s("S")), out.root);
    assert_eq!(
        Binarized::Markovized(MarkovizedNode {
            label: s("NP"),
            children: vec![],
            ancestors: vec![s("S")],
        }),
        out.children[0].root
    );
}

#[test]
fn spine_without_siblings_is_not_unwound() {
    let text = "(S (A a) (B b) (C c) (D d))";
    let back = tree(text).markovize(1, 0, &[]).debinarize();
    assert_eq!("(S (A a) (S (B b) (S (C c) (D d))))".to_string(), back.to_text());
    let back = tree("(S (A a) b c)").markovize(1, 5, &[]).debinarize();
    assert_eq!("(S (A a) (S|<b,c> b c))".to_string(), back.to_text());
}
