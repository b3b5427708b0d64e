//! What the commands do with one line of their input: read it, transform
//! it, and give the line to print.

use vstd::prelude::*;
use crate::binarized::debinarize::debinarized;
use crate::binarized::markovize::{markovizable, markovized};
use crate::binarized::node::{labels_parse, parsed_labels, Binarized};
use crate::grammar::cell::CykMode;
use crate::grammar::cell::ChartEntry;
use crate::grammar::complete::{is_complete_chart, is_weighed_chart};
use crate::grammar::derivation::{
    best_tree, flat, is_sound_chart, parse_view, span_leaves, ParseView,
};
use crate::grammar::history::is_decoded_chart;
use crate::grammar::parse::GrammarView;
use crate::grammar::parse::GrammarParse;
use crate::sentence::{noparse_tree, parse_sentence, word_leaf, Sentence};
use crate::sexp::{parse_sexp, SExp};
use crate::tree::{label_views, tree_text, NodeType, NodeTypeView, Tree};
use crate::unk::{
    as_terminals, lemma_no_unknown_words, lemma_places_in_range, lemma_relabelled_leaves,
    lemma_restored_words, relabelled, restored, smoothed, unked, unknown_words, word_map_view,
};

verus! {

/// What is put in the place of the words that have no lexical rule.
#[derive(Copy, Clone, PartialEq, Eq, Debug)]
pub enum OovMode {
    /// Nothing: the words stay.
    Keep,
    /// The word `UNK`.
    Unk,
    /// The signature of the word.
    Smooth,
}

/// What became of a line.
#[derive(Clone, PartialEq, Eq, Debug)]
pub enum Outcome {
    /// The line to print.
    Output(String),
    /// The line could not be read; it is skipped.
    Malformed,
    /// The line holds a list that does not start with an atom, which is no tree.
    NotATree,
    /// A label of the tree denotes no label.
    BadLabel,
    /// The sentence is too long for a chart on this machine.
    TooLong,
}

/// The leaves of the tree that stands for a sentence without a parse are the words.
pub proof fn lemma_noparse_leaves(words: Seq<Seq<char>>)
    requires
        words.len() > 0,
    ensures
        noparse_tree(words).leaves() == span_leaves(words, 0, words.len() as int),
{
    let t = noparse_tree(words);
    lemma_flat_leaves(words, words.len());
    assert(t.leaves_upto(words.len()) =~= span_leaves(words, 0, words.len() as int));
}

proof fn lemma_flat_leaves(words: Seq<Seq<char>>, n: nat)
    requires
        n <= words.len(),
    ensures
        noparse_tree(words).leaves_upto(n) == span_leaves(words, 0, n as int),
    decreases n,
{
    let t = noparse_tree(words);
    if n > 0 {
        lemma_flat_leaves(words, (n - 1) as nat);
        assert(t.children[n - 1] == word_leaf(words[n - 1]));
        assert(t.children[n - 1].leaves() =~= seq![NodeTypeView::Terminal(words[n - 1])]);
        assert(t.leaves_upto(n) =~= span_leaves(words, 0, n as int));
    } else {
        assert(t.leaves_upto(n) =~= span_leaves(words, 0, n as int));
    }
}

/// The tree that is printed for a sentence: the parse, or the tree without
/// a parse where there is none, with the words of `word_map` put back.
pub open spec fn finished(
    words: Seq<Seq<char>>,
    word_map: Option<Seq<(usize, Seq<char>)>>,
    parsed: Option<ParseView>,
) -> ParseView {
    let tree = match parsed {
        Some(t) => t,
        None => noparse_tree(words),
    };
    match word_map {
        Some(map) => relabelled(tree, restored(tree.leaves(), map, map.len() as int), 0),
        None => tree,
    }
}

/// The mathematical value of a word map that may be missing.
pub open spec fn word_map_option(word_map: Option<Vec<(usize, String)>>) -> Option<
    Seq<(usize, Seq<char>)>,
> {
    match word_map {
        Some(map) => Some(word_map_view(map@)),
        None => None,
    }
}

/// Makes the tree to print from what the decoder gave for a sentence: the
/// parse, or the tree without a parse over the words of the sentence; the
/// words that were replaced before decoding are put back.
pub fn finish_parse(
    sentence: Sentence<String>,
    word_map: Option<Vec<(usize, String)>>,
    parsed: Option<Tree<NodeType<String, String>>>,
) -> (r: Tree<NodeType<String, String>>)
    requires
        sentence@.len() > 0,
        parsed matches Some(t) ==> t@.leaves().len() == sentence@.len(),
        word_map matches Some(map) ==> forall|i: int|
            0 <= i < map@.len() ==> (#[trigger] map@[i]).0 < sentence@.len(),
    ensures
        r@ == finished(sentence@, word_map_option(word_map), parse_view(parsed)),
{
    proof {
        lemma_noparse_leaves(sentence@);
    }
    let mut tree = match parsed {
        Some(t) => t,
        None => sentence.into_noparse(),
    };
    match word_map {
        Some(map) => {
            tree.deunkify(map);
        },
        None => {},
    }
    tree
}

/// What binarising a line gives: the text of the binarised tree that the
/// line denotes, and what is wrong with the line where there is none.
pub open spec fn binarised_line(line: Seq<char>, v: nat, h: nat) -> Option<Seq<char>> {
    match parse_sexp(line) {
        Some(e) => if e.is_tree_shaped() && markovizable(e.tree(), h) {
            Some(tree_text::<Binarized<String>>(markovized(e.tree(), v, h, Seq::empty())))
        } else {
            None
        },
        None => None,
    }
}

/// Binarises one line: reads the tree, binarises it with vertical context
/// `v` and horizontal context `h`, and gives the text of the result.
pub fn binarise_line(line: &str, v: usize, h: usize) -> (r: Outcome)
    ensures
        match r {
            Outcome::Output(text) => binarised_line(line@, v as nat, h as nat) == Some(text@),
            Outcome::Malformed => parse_sexp(line@) is None,
            Outcome::NotATree => parse_sexp(line@) matches Some(e) && !e.is_tree_shaped(),
            Outcome::BadLabel => parse_sexp(line@) matches Some(e) && e.is_tree_shaped()
                && !markovizable(e.tree(), h as nat),
            Outcome::TooLong => false,
        },
{
    let sexp = match SExp::from_str(line) {
        Ok(e) => e,
        Err(_) => {
            return Outcome::Malformed;
        },
    };
    if !sexp.is_tree_shaped() {
        return Outcome::NotATree;
    }
    let tree = Tree::from(sexp);
    let none: Vec<String> = Vec::new();
    assert(label_views(none@) =~= Seq::<Seq<char>>::empty());
    match tree.try_markovize(v, h, none.as_slice()) {
        Some(t) => Outcome::Output(t.to_text()),
        None => Outcome::BadLabel,
    }
}

/// What debinarising a line gives: the text of the tree that the binarised
/// tree of the line stands for.
pub open spec fn debinarised_line(line: Seq<char>) -> Option<Seq<char>> {
    match parse_sexp(line) {
        Some(e) => if e.is_tree_shaped() && labels_parse(e.tree()) {
            Some(tree_text::<String>(debinarized(parsed_labels(e.tree()))))
        } else {
            None
        },
        None => None,
    }
}

/// Debinarises one line: reads the tree and its labels, undoes the
/// binarisation, and gives the text of the result.
pub fn debinarise_line(line: &str) -> (r: Outcome)
    ensures
        match r {
            Outcome::Output(text) => debinarised_line(line@) == Some(text@),
            Outcome::Malformed => parse_sexp(line@) is None,
            Outcome::NotATree => parse_sexp(line@) matches Some(e) && !e.is_tree_shaped(),
            Outcome::BadLabel => parse_sexp(line@) matches Some(e) && e.is_tree_shaped()
                && !labels_parse(e.tree()),
            Outcome::TooLong => false,
        },
{
    let sexp = match SExp::from_str(line) {
        Ok(e) => e,
        Err(_) => {
            return Outcome::Malformed;
        },
    };
    if !sexp.is_tree_shaped() {
        return Outcome::NotATree;
    }
    let tree = Tree::from(sexp);
    match tree.try_parse_markovized() {
        Some(t) => Outcome::Output(t.debinarize().to_text()),
        None => Outcome::BadLabel,
    }
}

/// The words that are decoded for the words of a line: where `oov` says
/// so, `UNK` or its signature stands for every word without a lexical rule.
pub open spec fn decoded_words(g: GrammarView, words: Seq<Seq<char>>, oov: OovMode) -> Seq<
    Seq<char>,
> {
    match oov {
        OovMode::Keep => words,
        OovMode::Unk => unked(words, g.lexicon.dom()),
        OovMode::Smooth => smoothed(words, g.lexicon.dom()),
    }
}

/// The words that are put back after decoding, with their places: the
/// words without a lexical rule, where `oov` has them replaced and there are any.
pub open spec fn replaced_words(g: GrammarView, words: Seq<Seq<char>>, oov: OovMode) -> Option<
    Seq<(usize, Seq<char>)>,
> {
    let unknown = unknown_words(words, g.lexicon.dom(), words.len() as int);
    if oov is Keep || unknown.len() == 0 {
        None
    } else {
        Some(unknown)
    }
}

/// The line that is printed for the words of a line where the decoder
/// filled the chart `c` for them: the text of the tree that the chart spells
/// out for the whole sentence and the initial non-terminal, or of the tree
/// without a parse, with the words put back that were replaced.
pub open spec fn decoded_text(
    g: GrammarView,
    words: Seq<Seq<char>>,
    oov: OovMode,
    c: Seq<ChartEntry>,
) -> Seq<char> {
    let decoded = decoded_words(g, words, oov);
    let root = flat(words.len() as int, g.symbols.len() as int, 0, words.len() as int, g.initial);
    tree_text::<NodeType<String, String>>(
        finished(
            decoded,
            replaced_words(g, words, oov),
            best_tree(c, root, decoded, g.symbols, c.len()),
        ),
    )
}

/// Decodes one line: reads the sentence, replaces the words without a
/// lexical rule as `oov` says, decodes, and gives the text of the tree to
/// print. A line that is no sentence is malformed.
pub fn parse_line<F: Fn(u64, u64) -> u64>(
    grammar: &GrammarParse,
    line: &str,
    oov: OovMode,
    mode: CykMode,
    times: &F,
) -> (r: Outcome)
    requires
        grammar.wf(),
        mode.is_valid(),
        forall|x: u64, y: u64| times.requires((x, y)),
    ensures
        r is Malformed <==> parse_sentence(line@) is None,
        r is TooLong <==> parse_sentence(line@) is Some && !grammar.chart_fits(
            parse_sentence(line@)->0.len() as int,
        ),
        r matches Outcome::Output(text) ==> exists|tree: ParseView|
            {
                &&& #[trigger] tree_text::<NodeType<String, String>>(tree) == text@
                &&& tree.leaves() == as_terminals(parse_sentence(line@)->0)
            },
        r matches Outcome::Output(text) ==> exists|c: Seq<ChartEntry>|
            {
                &&& is_sound_chart(
                    grammar@,
                    decoded_words(grammar@, parse_sentence(line@)->0, oov),
                    c,
                )
                &&& is_weighed_chart(
                    grammar@,
                    times,
                    decoded_words(grammar@, parse_sentence(line@)->0, oov),
                    c,
                )
                &&& mode is Base ==> is_complete_chart(
                    grammar@,
                    times,
                    decoded_words(grammar@, parse_sentence(line@)->0, oov),
                    c,
                )
                &&& is_decoded_chart(
                    grammar@,
                    times,
                    decoded_words(grammar@, parse_sentence(line@)->0, oov),
                    c,
                    mode,
                )
                &&& #[trigger] decoded_text(grammar@, parse_sentence(line@)->0, oov, c) == text@
            },
        !(r is NotATree) && !(r is BadLabel),
{
    let mut sentence = match Sentence::from_str(line) {
        Ok(s) => s,
        Err(_) => {
            return Outcome::Malformed;
        },
    };
    if !grammar.can_chart(sentence.len()) {
        return Outcome::TooLong;
    }
    let ghost words = sentence@;
    let n = sentence.len();
    let word_map = match oov {
        OovMode::Keep => None,
        OovMode::Unk => sentence.unkify(grammar.rules_lexical()),
        OovMode::Smooth => sentence.smooth(grammar.rules_lexical()),
    };
    proof {
        match &word_map {
            Some(map) => {
                let known = grammar@.lexicon.dom();
                lemma_places_in_range(words, known, words.len() as int);
                assert(word_map_view(map@) == unknown_words(words, known, words.len() as int));
                assert forall|i: int| 0 <= i < map@.len() implies (#[trigger] map@[i]).0
                    < sentence@.len() by {
                    assert(word_map_view(map@)[i].0 == map@[i].0);
                    assert(unknown_words(words, known, words.len() as int)[i].0 < words.len());
                }
            },
            None => {},
        }
    }
    let ghost replaced = sentence@;
    let ghost known = grammar@.lexicon.dom();
    let ghost map = word_map_option(word_map);
    let parsed = grammar.cyk(&sentence, mode, times);
    let ghost first = match parse_view(parsed) {
        Some(t) => t,
        None => noparse_tree(replaced),
    };
    let tree = finish_parse(sentence, word_map, parsed);
    proof {
        lemma_noparse_leaves(replaced);
        assert(span_leaves(replaced, 0, replaced.len() as int) =~= as_terminals(replaced));
        assert(first.leaves() == as_terminals(replaced));
        match map {
            Some(m) => {
                assert(m == unknown_words(words, known, words.len() as int));
                lemma_restored_words(words, replaced, known, words.len() as int);
                lemma_relabelled_leaves(first, restored(first.leaves(), m, m.len() as int), 0);
                let back = restored(first.leaves(), m, m.len() as int);
                assert(back =~= as_terminals(words));
                assert(back.subrange(0, first.leaves().len() as int) =~= back);
            },
            None => {
                if !(oov is Keep) {
                    lemma_no_unknown_words(words, known, words.len() as int);
                }
                assert(replaced =~= words);
            },
        }
        assert(tree@.leaves() == as_terminals(words));
        assert(replaced == decoded_words(grammar@, words, oov));
        assert(map == replaced_words(grammar@, words, oov));
        let root = flat(
            words.len() as int,
            grammar@.symbols.len() as int,
            0,
            words.len() as int,
            grammar@.initial,
        );
        let c = choose|c: Seq<ChartEntry>|
            is_sound_chart(grammar@, replaced, c) && is_weighed_chart(grammar@, times, replaced, c)
                && (mode is Base ==> is_complete_chart(grammar@, times, replaced, c))
                && is_decoded_chart(grammar@, times, replaced, c, mode) && #[trigger] best_tree(c, root, replaced, grammar@.symbols, c.len())
                == parse_view(parsed);
        assert(decoded_text(grammar@, words, oov, c) == tree_text::<NodeType<String, String>>(
            tree@,
        ));
        assert(words == parse_sentence(line@)->0);
        assert(is_sound_chart(grammar@, decoded_words(grammar@, parse_sentence(line@)->0, oov), c)
            && is_weighed_chart(
            grammar@,
            times,
            decoded_words(grammar@, parse_sentence(line@)->0, oov),
            c,
        ) && (mode is Base ==> is_complete_chart(
            grammar@,
            times,
            decoded_words(grammar@, parse_sentence(line@)->0, oov),
            c,
        )) && is_decoded_chart(
            grammar@,
            times,
            decoded_words(grammar@, parse_sentence(line@)->0, oov),
            c,
            mode,
        ) && decoded_text(grammar@, parse_sentence(line@)->0, oov, c) == tree_text::<
            NodeType<String, String>,
        >(tree@));
    }
    Outcome::Output(tree.to_text())
}

} // verus!
