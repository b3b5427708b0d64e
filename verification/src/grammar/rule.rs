//! Grammar rules and rules with a weight.

use vstd::prelude::*;
use crate::tree::label_views;

verus! {

/// A rule: a non-terminal that yields one terminal, or a sequence of non-terminals.
#[derive(Eq, PartialEq, Hash, Clone, Debug)]
#[allow(inconsistent_fields)]
pub enum Rule<N, T> {
    Lexical { lhs: N, rhs: T },
    NonLexical { lhs: N, rhs: Vec<N> },
}

#[allow(inconsistent_fields)]
pub ghost enum RuleView<N, T> {
    Lexical { lhs: N, rhs: T },
    NonLexical { lhs: N, rhs: Seq<N> },
}

impl<N: View, T: View> View for Rule<N, T> {
    type V = RuleView<N::V, T::V>;

    open spec fn view(&self) -> RuleView<N::V, T::V> {
        match self {
            Rule::Lexical { lhs, rhs } => RuleView::Lexical { lhs: lhs@, rhs: rhs@ },
            Rule::NonLexical { lhs, rhs } => RuleView::NonLexical {
                lhs: lhs@,
                rhs: label_views(rhs@),
            },
        }
    }
}

impl<N, T> RuleView<N, T> {
    /// The non-terminal on the left of the rule.
    pub open spec fn lhs(self) -> N {
        match self {
            RuleView::Lexical { lhs, .. } => lhs,
            RuleView::NonLexical { lhs, .. } => lhs,
        }
    }
}

/// A rule and its weight.
#[derive(PartialEq, Eq, Debug, Clone)]
pub struct WeightedRule<N, T, W> {
    pub rule: Rule<N, T>,
    pub weight: W,
}

} // verus!
