//! The text form of rules with weights, one rule on a line:
//! `LHS -> R1 R2 WEIGHT` for a rule of non-terminals and `LHS WORD WEIGHT`
//! for a lexical rule.
//!
//! A weight is a number in decimal notation. Where a number stands in a
//! text is decided by the number recogniser of the crate `nom`; this module
//! keeps the weight as the text that was recognised.

use vstd::prelude::*;
use crate::grammar::rule::{Rule, RuleView, WeightedRule};
use crate::grammar::symbols::{interned, SymbolTable};
use crate::grammar::weighted::GrammarWeighted;
use crate::text::{chars_of, find, find_from, push_char, string_of, trim, trimmed, CharClass};
use crate::tree::label_views;

verus! {

/// What looking for a number at the start of a text gives.
#[derive(Copy, Clone, PartialEq, Eq, Debug)]
pub enum FloatScan {
    /// A number of so many characters stands there.
    Found(usize),
    /// No number stands there.
    Absent,
    /// A number starts there and breaks off in its exponent.
    Broken,
}

/// What the number recogniser of `nom` gives for a text.
pub uninterp spec fn float_prefix(text: Seq<char>) -> FloatScan;

/// Calls `nom::number::complete::recognize_float_or_exceptions` on a text
/// and tells its three outcomes apart: the recognised prefix, of which the
/// number of characters is given; an error, which lets the caller try
/// something else; and a failure, which does not. The outcome depends on the
/// text alone. A recognised prefix is not empty and lies within the text.
#[verifier::external_body]
fn scan_float(text: &str) -> (r: FloatScan)
    ensures
        r == float_prefix(text@),
        r matches FloatScan::Found(n) ==> 1 <= n <= text@.len(),
{
    match nom::number::complete::recognize_float_or_exceptions::<&str, nom::error::Error<&str>>(
        text,
    ) {
        Ok((_, found)) => FloatScan::Found(found.chars().count()),
        Err(nom::Err::Error(_)) => FloatScan::Absent,
        Err(_) => FloatScan::Broken,
    }
}

/// What the recogniser gives at every position of a text: the entry at
/// `p` is what it gives for the text from `p` on.
pub open spec fn float_scans(t: Seq<char>) -> Seq<FloatScan> {
    Seq::new(t.len() + 1, |p: int| float_prefix(t.subrange(p, t.len() as int)))
}

/// Whether `scans` can be what a recogniser gives at the positions of `t`:
/// a number that is found is not empty and ends within the text.
pub open spec fn are_scans_of(scans: Seq<FloatScan>, t: Seq<char>) -> bool {
    &&& scans.len() == t.len() + 1
    &&& forall|p: int|
        0 <= p < scans.len() ==> ((#[trigger] scans[p]) matches FloatScan::Found(n) ==> 1 <= n
            && p + n <= t.len())
}

/// An attempt to read a rule with its weight: the rule, the text of the
/// weight and the position behind them; or a mismatch, after which another
/// form can be tried; or a broken number, after which none can.
pub ghost enum Attempt {
    Done(RuleView<Seq<char>, Seq<char>>, Seq<char>, int),
    Mismatch,
    Broken,
}

/// The attempt to read a lexical rule from a trimmed text: two tokens and a
/// number, with blanks between them and any blanks behind the number.
pub open spec fn try_lexical(t: Seq<char>, scans: Seq<FloatScan>) -> Attempt {
    let q1 = find(t, 0, CharClass::TokenEnd);
    let pb = find(t, q1, CharClass::NotBlank);
    let q2 = find(t, pb, CharClass::TokenEnd);
    let pc = find(t, q2, CharClass::NotBlank);
    if 0 < q1 < pb < q2 < pc <= t.len() {
        match scans[pc] {
            FloatScan::Found(n) => Attempt::Done(
                RuleView::Lexical { lhs: t.subrange(0, q1), rhs: t.subrange(pb, q2) },
                t.subrange(pc, pc + n),
                find(t, pc + n, CharClass::NotBlank),
            ),
            FloatScan::Absent => Attempt::Mismatch,
            FloatScan::Broken => Attempt::Broken,
        }
    } else {
        Attempt::Mismatch
    }
}

/// The right side of a rule of non-terminals from `p` on, behind the
/// non-terminals `acc`: at every token a number is looked for first, and the
/// first number ends the right side and is the weight.
pub open spec fn rhs_from(
    t: Seq<char>,
    scans: Seq<FloatScan>,
    lhs: Seq<char>,
    p: int,
    acc: Seq<Seq<char>>,
) -> Attempt
    decreases t.len() - p,
{
    if 0 <= p <= t.len() {
        match scans[p] {
            FloatScan::Found(n) => Attempt::Done(
                RuleView::NonLexical { lhs, rhs: acc },
                t.subrange(p, p + n),
                p + n,
            ),
            FloatScan::Broken => Attempt::Broken,
            FloatScan::Absent => {
                let q = find(t, p, CharClass::TokenEnd);
                let pb = find(t, q, CharClass::NotBlank);
                if p < q < pb <= t.len() {
                    rhs_from(t, scans, lhs, pb, acc.push(t.subrange(p, q)))
                } else {
                    Attempt::Mismatch
                }
            },
        }
    } else {
        Attempt::Mismatch
    }
}

/// The attempt to read a rule of non-terminals from a trimmed text: a
/// token, blanks, `->`, and the right side with the weight.
pub open spec fn try_nonlexical(t: Seq<char>, scans: Seq<FloatScan>) -> Attempt {
    let q1 = find(t, 0, CharClass::TokenEnd);
    let pb = find(t, q1, CharClass::NotBlank);
    if 0 < q1 < pb && pb + 2 <= t.len() && t[pb] == '-' && t[pb + 1] == '>' {
        rhs_from(
            t,
            scans,
            t.subrange(0, q1),
            find(t, pb + 2, CharClass::NotWhitespace),
            Seq::empty(),
        )
    } else {
        Attempt::Mismatch
    }
}

/// The rule and the text of its weight that a trimmed text denotes, if
/// any, where `scans` says at which positions a number stands. The lexical
/// form is tried first, and the other form only after a mismatch. Nothing
/// may follow the rule.
pub open spec fn rule_from_scans(t: Seq<char>, scans: Seq<FloatScan>) -> Option<
    (RuleView<Seq<char>, Seq<char>>, Seq<char>),
> {
    let attempt = match try_lexical(t, scans) {
        Attempt::Mismatch => try_nonlexical(t, scans),
        other => other,
    };
    match attempt {
        Attempt::Done(rule, weight, rest) => if rest == t.len() {
            Some((rule, weight))
        } else {
            None
        },
        _ => None,
    }
}

/// The rule and the text of its weight that a line denotes, if any:
/// whitespace around the line does not count, and a number stands where the
/// recogniser finds one.
pub open spec fn parse_rule_line(text: Seq<char>) -> Option<(RuleView<Seq<char>, Seq<char>>, Seq<char>)> {
    rule_from_scans(trimmed(text), float_scans(trimmed(text)))
}

/// A line that denotes no rule.
#[derive(Debug, PartialEq, Eq, Clone, Copy)]
pub struct RuleError;

/// An attempt to read a rule, as the reader holds it.
enum Read {
    Done(WeightedRule<String, String, String>, usize),
    Mismatch,
    Broken,
}

impl Read {
    spec fn attempt(self) -> Attempt {
        match self {
            Read::Done(r, rest) => Attempt::Done(r.rule@, r.weight@, rest as int),
            Read::Mismatch => Attempt::Mismatch,
            Read::Broken => Attempt::Broken,
        }
    }
}

fn read_lexical(t: &Vec<char>, scans: &Vec<FloatScan>) -> (r: Read)
    requires
        are_scans_of(scans@, t@),
    ensures
        r.attempt() == try_lexical(t@, scans@),
        r matches Read::Done(_, rest) ==> rest <= t.len(),
{
    let q1 = find_from(t, 0, CharClass::TokenEnd);
    let pb = find_from(t, q1, CharClass::NotBlank);
    let q2 = find_from(t, pb, CharClass::TokenEnd);
    let pc = find_from(t, q2, CharClass::NotBlank);
    if 0 < q1 && q1 < pb && pb < q2 && q2 < pc {
        match scans[pc] {
            FloatScan::Found(n) => {
                let rule = Rule::Lexical { lhs: string_of(t, 0, q1), rhs: string_of(t, pb, q2) };
                let weight = string_of(t, pc, pc + n);
                let rest = find_from(t, pc + n, CharClass::NotBlank);
                Read::Done(WeightedRule { rule, weight }, rest)
            },
            FloatScan::Absent => Read::Mismatch,
            FloatScan::Broken => Read::Broken,
        }
    } else {
        Read::Mismatch
    }
}

fn read_nonlexical(t: &Vec<char>, scans: &Vec<FloatScan>) -> (r: Read)
    requires
        are_scans_of(scans@, t@),
    ensures
        r.attempt() == try_nonlexical(t@, scans@),
        r matches Read::Done(_, rest) ==> rest <= t.len(),
{
    let q1 = find_from(t, 0, CharClass::TokenEnd);
    let pb = find_from(t, q1, CharClass::NotBlank);
    if 0 < q1 && q1 < pb && t.len() >= 2 && pb <= t.len() - 2 && t[pb] == '-' && t[pb + 1] == '>' {
        let lhs = string_of(t, 0, q1);
        let mut rhs: Vec<String> = Vec::new();
        let mut p = find_from(t, pb + 2, CharClass::NotWhitespace);
        assert(label_views(rhs@) =~= Seq::<Seq<char>>::empty());
        loop
            invariant
                p <= t.len(),
                are_scans_of(scans@, t@),
                lhs@ == t@.subrange(0, q1 as int),
                try_nonlexical(t@, scans@) == rhs_from(
                    t@,
                    scans@,
                    lhs@,
                    p as int,
                    label_views(rhs@),
                ),
            decreases t.len() - p,
        {
            match scans[p] {
                FloatScan::Found(n) => {
                    let weight = string_of(t, p, p + n);
                    let rule = Rule::NonLexical { lhs, rhs };
                    return Read::Done(WeightedRule { rule, weight }, p + n);
                },
                FloatScan::Broken => {
                    return Read::Broken;
                },
                FloatScan::Absent => {
                    let q = find_from(t, p, CharClass::TokenEnd);
                    let next = find_from(t, q, CharClass::NotBlank);
                    if p < q && q < next {
                        let ghost before = label_views(rhs@);
                        rhs.push(string_of(t, p, q));
                        assert(label_views(rhs@) =~= before.push(t@.subrange(p as int, q as int)));
                        p = next;
                    } else {
                        return Read::Mismatch;
                    }
                },
            }
        }
    } else {
        Read::Mismatch
    }
}

/// Reads a rule and the text of its weight from the trimmed text `t`,
/// where `scans` says at which positions a number stands.
pub fn read_rule(t: &Vec<char>, scans: &Vec<FloatScan>) -> (r: Result<
    WeightedRule<String, String, String>,
    RuleError,
>)
    requires
        are_scans_of(scans@, t@),
    ensures
        match r {
            Ok(found) => rule_from_scans(t@, scans@) == Some((found.rule@, found.weight@)),
            Err(_) => rule_from_scans(t@, scans@) is None,
        },
{
    let first = read_lexical(t, scans);
    let attempt = match first {
        Read::Mismatch => read_nonlexical(t, scans),
        other => other,
    };
    match attempt {
        Read::Done(found, rest) => {
            if rest == t.len() {
                Ok(found)
            } else {
                Err(RuleError)
            }
        },
        _ => Err(RuleError),
    }
}

/// Whether `scans` can be what a recogniser gives at the positions of `t`.
pub fn check_scans(t: &Vec<char>, scans: &Vec<FloatScan>) -> (r: bool)
    ensures
        r == are_scans_of(scans@, t@),
{
    let m = scans.len();
    if m == 0 || m - 1 != t.len() {
        return false;
    }
    let mut p: usize = 0;
    while p < scans.len()
        invariant
            p <= scans.len(),
            scans@.len() == t@.len() + 1,
            forall|i: int|
                0 <= i < p ==> ((#[trigger] scans@[i]) matches FloatScan::Found(n) ==> 1 <= n && i
                    + n <= t@.len()),
        decreases scans.len() - p,
    {
        match scans[p] {
            FloatScan::Found(n) => {
                if n < 1 || n > t.len() - p {
                    assert(!(1 <= n && p + n <= t@.len()));
                    return false;
                }
            },
            _ => {},
        }
        p += 1;
    }
    true
}

/// What the recogniser gives at every position of `t`.
pub fn scan_floats(t: &Vec<char>) -> (scans: Vec<FloatScan>)
    ensures
        scans@ == float_scans(t@),
        are_scans_of(scans@, t@),
{
    let mut scans: Vec<FloatScan> = Vec::new();
    let mut p: usize = 0;
    let n = t.len();
    while p < n
        invariant
            p <= n,
            n == t.len(),
            scans@.len() == p,
            forall|i: int| 0 <= i < p ==> #[trigger] scans@[i] == float_scans(t@)[i],
            forall|i: int|
                0 <= i < p ==> ((#[trigger] scans@[i]) matches FloatScan::Found(k) ==> 1 <= k && i
                    + k <= t.len()),
        decreases n - p,
    {
        let rest = string_of(t, p, n);
        scans.push(scan_float(rest.as_str()));
        p += 1;
    }
    let rest = string_of(t, n, n);
    scans.push(scan_float(rest.as_str()));
    assert(scans@ =~= float_scans(t@));
    scans
}

impl WeightedRule<String, String, String> {
    /// Reads a rule and the text of its weight from a line.
    pub fn from_str(s: &str) -> (r: Result<WeightedRule<String, String, String>, RuleError>)
        ensures
            match r {
                Ok(found) => parse_rule_line(s@) == Some((found.rule@, found.weight@)),
                Err(_) => parse_rule_line(s@) is None,
            },
    {
        let all = chars_of(s);
        let t = trim(&all);
        let scans = scan_floats(&t);
        read_rule(&t, &scans)
    }
}

/// The text of a rule without its weight: the left side, then ` -> ` and
/// every non-terminal of the right side, or a space and the word; a space ends it.
pub open spec fn rule_head(rule: RuleView<Seq<char>, Seq<char>>) -> Seq<char> {
    match rule {
        RuleView::Lexical { lhs, rhs } => lhs + seq![' '] + rhs + seq![' '],
        RuleView::NonLexical { lhs, rhs } => lhs + seq![' ', '-', '>', ' '] + spaced(rhs, rhs.len()),
    }
}

/// The first `n` of `symbols`, each followed by a space.
pub open spec fn spaced(symbols: Seq<Seq<char>>, n: nat) -> Seq<char>
    decreases n,
{
    if 0 < n <= symbols.len() {
        spaced(symbols, (n - 1) as nat) + symbols[n - 1] + seq![' ']
    } else {
        Seq::empty()
    }
}

impl Rule<String, String> {
    /// Whether the rule yields a word.
    pub fn is_lexical(&self) -> (r: bool)
        ensures
            r == (self@ is Lexical),
    {
        match self {
            Rule::Lexical { .. } => true,
            Rule::NonLexical { .. } => false,
        }
    }

    /// The text of the rule without its weight.
    pub fn head_text(&self) -> (r: String)
        ensures
            r@ == rule_head(self@),
    {
        let mut out = String::new();
        match self {
            Rule::Lexical { lhs, rhs } => {
                out.append(lhs.as_str());
                out.append(" ");
                out.append(rhs.as_str());
                out.append(" ");
                proof {
                    reveal_strlit(" ");
                    assert(" "@ =~= seq![' ']);
                    assert(out@ =~= rule_head(self@));
                }
            },
            Rule::NonLexical { lhs, rhs } => {
                out.append(lhs.as_str());
                out.append(" -> ");
                proof {
                    reveal_strlit(" -> ");
                    assert(" -> "@ =~= seq![' ', '-', '>', ' ']);
                }
                let ghost head = out@;
                let mut k: usize = 0;
                while k < rhs.len()
                    invariant
                        k <= rhs.len(),
                        out@ == head + spaced(label_views(rhs@), k as nat),
                    decreases rhs.len() - k,
                {
                    let ghost before = out@;
                    out.append(rhs[k].as_str());
                    out.append(" ");
                    proof {
                        reveal_strlit(" ");
                        assert(" "@ =~= seq![' ']);
                        assert(label_views(rhs@)[k as int] == rhs@[k as int]@);
                        assert(out@ =~= head + spaced(label_views(rhs@), (k + 1) as nat));
                    }
                    k += 1;
                }
                proof {
                    assert(out@ =~= rule_head(self@));
                }
            },
        }
        out
    }
}

/// The lines of the lexical rules among the first `n` of `rules`, or of
/// the other rules: each is the rule's text, its weight from `weights`, and a line feed.
pub open spec fn rule_lines<W>(
    rules: Seq<(RuleView<Seq<char>, Seq<char>>, W)>,
    weights: Seq<Seq<char>>,
    lexical: bool,
    n: nat,
) -> Seq<char>
    decreases n,
{
    if 0 < n <= rules.len() {
        rule_lines(rules, weights, lexical, (n - 1) as nat) + (if (rules[n - 1].0 is Lexical)
            == lexical {
            rule_head(rules[n - 1].0) + weights[n - 1] + seq!['\n']
        } else {
            Seq::empty()
        })
    } else {
        Seq::empty()
    }
}

/// The words that the lexical rules among the first `n` of `rules` yield,
/// each once, in the order in which they come.
pub open spec fn terminals_of<W>(rules: Seq<(RuleView<Seq<char>, Seq<char>>, W)>, n: nat) -> Seq<
    Seq<char>,
>
    decreases n,
{
    if 0 < n <= rules.len() {
        let before = terminals_of(rules, (n - 1) as nat);
        match rules[n - 1].0 {
            RuleView::Lexical { lhs, rhs } => interned(before, rhs).0,
            RuleView::NonLexical { .. } => before,
        }
    } else {
        Seq::empty()
    }
}

/// The first `n` of `words`, each on a line.
pub open spec fn word_lines(words: Seq<Seq<char>>, n: nat) -> Seq<char>
    decreases n,
{
    if 0 < n <= words.len() {
        word_lines(words, (n - 1) as nat) + words[n - 1] + seq!['\n']
    } else {
        Seq::empty()
    }
}

proof fn lemma_terminals_bound<W>(rules: Seq<(RuleView<Seq<char>, Seq<char>>, W)>, n: nat)
    requires
        n <= rules.len(),
    ensures
        terminals_of(rules, n).len() <= n,
    decreases n,
{
    if n > 0 {
        lemma_terminals_bound(rules, (n - 1) as nat);
    }
}

impl<W> GrammarWeighted<W> {
    fn write_rules(&self, weights: &Vec<String>, lexical: bool) -> (r: String)
        requires
            weights@.len() == self.rules().len(),
        ensures
            r@ == rule_lines(self.rules(), label_views(weights@), lexical, self.rules().len()),
    {
        let entries = self.entries();
        let mut out = String::new();
        let mut k: usize = 0;
        while k < entries.len()
            invariant
                k <= entries@.len(),
                entries@.len() == self.rules().len(),
                weights@.len() == self.rules().len(),
                forall|i: int|
                    0 <= i < entries@.len() ==> (#[trigger] entries@[i]).rule@ == self.rules()[i].0,
                out@ == rule_lines(self.rules(), label_views(weights@), lexical, k as nat),
            decreases entries@.len() - k,
        {
            let ghost before = out@;
            if entries[k].rule.is_lexical() == lexical {
                let head = entries[k].rule.head_text();
                out.append(head.as_str());
                out.append(weights[k].as_str());
                push_char(&mut out, '\n');
                proof {
                    assert(out@ =~= before + (rule_head(self.rules()[k as int].0) + label_views(
                        weights@,
                    )[k as int] + seq!['\n']));
                }
            } else {
                proof {
                    assert(out@ =~= before + Seq::<char>::empty());
                }
            }
            k += 1;
        }
        out
    }

    /// The lines of the rules of non-terminals, each with its weight: the
    /// text of the weight of the rule at place `i` is `weights[i]`.
    pub fn write_non_lexical_rules(&self, weights: &Vec<String>) -> (r: String)
        requires
            weights@.len() == self.rules().len(),
        ensures
            r@ == rule_lines(self.rules(), label_views(weights@), false, self.rules().len()),
    {
        self.write_rules(weights, false)
    }

    /// The lines of the lexical rules, each with its weight: the text of
    /// the weight of the rule at place `i` is `weights[i]`.
    pub fn write_lexical_rules(&self, weights: &Vec<String>) -> (r: String)
        requires
            weights@.len() == self.rules().len(),
        ensures
            r@ == rule_lines(self.rules(), label_views(weights@), true, self.rules().len()),
    {
        self.write_rules(weights, true)
    }

    /// The words that the lexical rules yield, each once and on a line of its own.
    pub fn write_terminals(&self) -> (r: String)
        requires
            self.rules().len() <= u32::MAX,
        ensures
            r@ == word_lines(
                terminals_of(self.rules(), self.rules().len()),
                terminals_of(self.rules(), self.rules().len()).len(),
            ),
    {
        let entries = self.entries();
        let mut seen = SymbolTable::new();
        let mut k: usize = 0;
        while k < entries.len()
            invariant
                k <= entries@.len(),
                entries@.len() == self.rules().len(),
                entries@.len() <= u32::MAX,
                forall|i: int|
                    0 <= i < entries@.len() ==> (#[trigger] entries@[i]).rule@ == self.rules()[i].0,
                seen.wf(),
                seen@ == terminals_of(self.rules(), k as nat),
            decreases entries@.len() - k,
        {
            proof {
                lemma_terminals_bound(self.rules(), k as nat);
            }
            match &entries[k].rule {
                Rule::Lexical { lhs, rhs } => {
                    let _ = seen.intern(rhs.clone());
                },
                Rule::NonLexical { .. } => {},
            }
            k += 1;
        }
        let names = seen.names();
        let mut out = String::new();
        let mut i: usize = 0;
        while i < names.len()
            invariant
                i <= names@.len(),
                out@ == word_lines(label_views(names@), i as nat),
            decreases names@.len() - i,
        {
            let ghost before = out@;
            out.append(names[i].as_str());
            push_char(&mut out, '\n');
            proof {
                assert(out@ =~= before + label_views(names@)[i as int] + seq!['\n']);
            }
            i += 1;
        }
        out
    }
}

} // verus!
