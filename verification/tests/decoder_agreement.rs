use std::collections::{BinaryHeap, HashMap};

use pcfg::grammar::cell::{BacktraceInfo, CykMode};
use pcfg::grammar::parse::GrammarParse;
use pcfg::grammar::rule::{Rule, WeightedRule};
use pcfg::sentence::Sentence;

// A decoder that computes with floating-point numbers and the collections
// of std, written down from the description of the algorithm. The library
// is held against it on grammars and sentences drawn by a generator.

#[derive(Clone, Copy, PartialEq, Debug)]
struct Entry {
    weight: f64,
    back: Option<BacktraceInfo>,
}

const NONE: Entry = Entry {
    weight: 0.0,
    back: None,
};

fn rank(back: Option<BacktraceInfo>) -> (u8, usize, usize) {
    match back {
        None => (0, 0, 0),
        Some(BacktraceInfo::Binary(i, j)) => (1, i, j),
        Some(BacktraceInfo::Chain(i)) => (2, i, 0),
        Some(BacktraceInfo::Term(i)) => (3, i, 0),
    }
}

struct Reference {
    names: Vec<String>,
    lexical: HashMap<String, Vec<(usize, f64)>>,
    chain: HashMap<usize, Vec<(usize, f64)>>,
    binary: HashMap<usize, Vec<(usize, usize, f64)>>,
}

impl Reference {
    fn number(&mut self, name: &str) -> usize {
        match self.names.iter().position(|n| n == name) {
            Some(i) => i,
            None => {
                self.names.push(name.to_string());
                self.names.len() - 1
            }
        }
    }

    fn closure(&self, cell: &mut [Entry]) {
        let mut queue = BinaryHeap::new();
        for (i, e) in cell.iter().enumerate() {
            if e.weight != 0.0 {
                queue.push((e.weight.to_bits(), rank(e.back), i));
            }
        }
        let held: Vec<Entry> = cell.to_vec();
        for e in cell.iter_mut() {
            *e = NONE;
        }
        let mut traces: HashMap<(u64, (u8, usize, usize), usize), Option<BacktraceInfo>> =
            HashMap::new();
        for (i, e) in held.iter().enumerate() {
            traces.insert((e.weight.to_bits(), rank(e.back), i), e.back);
        }
        while let Some((bits, r, b)) = queue.pop() {
            let q = f64::from_bits(bits);
            if q > cell[b].weight {
                let back = match traces.get(&(bits, r, b)) {
                    Some(back) => *back,
                    None => Some(BacktraceInfo::Chain(r.1)),
                };
                cell[b] = Entry { weight: q, back };
                if let Some(rules) = self.chain.get(&b) {
                    for (a, w) in rules {
                        let product = w * q;
                        let product = if product > 0.0 { product } else { 0.0 };
                        queue.push((
                            product.to_bits(),
                            rank(Some(BacktraceInfo::Chain(b))),
                            *a,
                        ));
                    }
                }
            }
        }
    }

    fn prune(&self, cell: &mut [Entry], mode: &Mode) {
        if let Some(t) = mode.threshold {
            let m = cell.iter().map(|e| e.weight).fold(0.0, f64::max);
            let cutoff = m * t;
            for e in cell.iter_mut() {
                if e.weight < cutoff {
                    *e = NONE;
                }
            }
        }
        if let Some(k) = mode.rank {
            let mut sorted: Vec<f64> = cell.iter().map(|e| e.weight).collect();
            sorted.sort_by(|a, b| b.partial_cmp(a).unwrap());
            let cutoff = if k <= sorted.len() {
                sorted[k - 1]
            } else {
                sorted[sorted.len() - 1]
            };
            for e in cell.iter_mut() {
                if e.weight < cutoff {
                    *e = NONE;
                }
            }
        }
    }

    fn chart(&self, words: &[String], mode: &Mode) -> Vec<Entry> {
        let n = words.len();
        let num = self.names.len();
        let start_of = |start: usize, span: usize| {
            let rows = n - span + 1;
            (n * (n + 1) / 2 - rows * (rows + 1) / 2 + start) * num
        };
        let mut chart = vec![NONE; n * (n + 1) / 2 * num];
        for i in 0..n {
            let at = start_of(i, 1);
            if let Some(rules) = self.lexical.get(&words[i]) {
                for (a, w) in rules {
                    chart[at + a] = Entry {
                        weight: *w,
                        back: Some(BacktraceInfo::Term(i)),
                    };
                }
            }
            self.closure(&mut chart[at..at + num]);
            self.prune(&mut chart[at..at + num], mode);
        }
        for span in 2..=n {
            for i in 0..=(n - span) {
                let at = start_of(i, span);
                for a in 0..num {
                    for m in (i + 1)..(i + span) {
                        let left = start_of(i, m - i);
                        let right = start_of(m, i + span - m);
                        if let Some(rules) = self.binary.get(&a) {
                            for (b, c, w) in rules {
                                let l = chart[left + b].weight;
                                let r = chart[right + c].weight;
                                if mode.prunes() && !(l > 0.0 && r > 0.0) {
                                    continue;
                                }
                                let candidate = w * l * r;
                                if candidate > chart[at + a].weight {
                                    chart[at + a] = Entry {
                                        weight: candidate,
                                        back: Some(BacktraceInfo::Binary(left + b, right + c)),
                                    };
                                }
                            }
                        }
                    }
                }
                self.closure(&mut chart[at..at + num]);
                self.prune(&mut chart[at..at + num], mode);
            }
        }
        chart
    }
}

struct Mode {
    threshold: Option<f64>,
    rank: Option<usize>,
}

impl Mode {
    fn prunes(&self) -> bool {
        self.threshold.is_some() || self.rank.is_some()
    }

    fn of_library(&self) -> CykMode {
        match (self.threshold, self.rank) {
            (None, None) => CykMode::Base,
            (Some(t), None) => CykMode::PruneThreshold(t.to_bits()),
            (None, Some(k)) => CykMode::PruneFixedSize(k),
            (Some(t), Some(k)) => CykMode::PruneBoth(t.to_bits(), k),
        }
    }
}

fn times(a: u64, b: u64) -> u64 {
    let product = f64::from_bits(a) * f64::from_bits(b);
    if product > 0.0 {
        product.to_bits()
    } else {
        0
    }
}

struct Generator(u64);

impl Generator {
    fn next(&mut self, below: usize) -> usize {
        self.0 = self
            .0
            .wrapping_mul(6364136223846793005)
            .wrapping_add(1442695040888963407);
        ((self.0 >> 33) as usize) % below
    }

    fn weight(&mut self) -> f64 {
        (1 + self.next(999)) as f64 / 1000.0
    }
}

fn check(seed: u64, mode: Mode) {
    let mut gen = Generator(seed);
    let symbols = ["S", "A", "B", "C", "D"];
    let vocabulary = ["x", "y", "z"];
    let mut reference = Reference {
        names: vec![],
        lexical: HashMap::new(),
        chain: HashMap::new(),
        binary: HashMap::new(),
    };
    let mut grammar = GrammarParse::new("S".to_string());
    reference.number("S");
    let mut seen: Vec<(usize, usize)> = vec![];
    for _ in 0..(4 + gen.next(8)) {
        let weight = gen.weight();
        let lhs = symbols[gen.next(symbols.len())];
        match gen.next(3) {
            0 => {
                let word = gen.next(vocabulary.len());
                let a = reference.number(lhs);
                // one lexical rule for a non-terminal and a word
                if seen.contains(&(a, word)) {
                    continue;
                }
                seen.push((a, word));
                reference
                    .lexical
                    .entry(vocabulary[word].to_string())
                    .or_default()
                    .push((a, weight));
                grammar.insert_rule(WeightedRule {
                    rule: Rule::Lexical {
                        lhs: lhs.to_string(),
                        rhs: vocabulary[word].to_string(),
                    },
                    weight: weight.to_bits(),
                });
            }
            1 => {
                let rhs = symbols[gen.next(symbols.len())];
                let a = reference.number(lhs);
                let b = reference.number(rhs);
                reference.chain.entry(b).or_default().push((a, weight));
                grammar.insert_rule(WeightedRule {
                    rule: Rule::NonLexical {
                        lhs: lhs.to_string(),
                        rhs: vec![rhs.to_string()],
                    },
                    weight: weight.to_bits(),
                });
            }
            _ => {
                let left = symbols[gen.next(symbols.len())];
                let right = symbols[gen.next(symbols.len())];
                let a = reference.number(lhs);
                let b = reference.number(left);
                let c = reference.number(right);
                reference.binary.entry(a).or_default().push((b, c, weight));
                grammar.insert_rule(WeightedRule {
                    rule: Rule::NonLexical {
                        lhs: lhs.to_string(),
                        rhs: vec![left.to_string(), right.to_string()],
                    },
                    weight: weight.to_bits(),
                });
            }
        }
    }
    assert_eq!(&reference.names, grammar.lookup());
    let words: Vec<String> = (0..(1 + gen.next(5)))
        .map(|_| vocabulary[gen.next(vocabulary.len())].to_string())
        .collect();
    let expected = reference.chart(&words, &mode);
    let chart = grammar.fill_chart(&Sentence(words.clone()), mode.of_library(), &times);
    assert_eq!(expected.len(), chart.data().len());
    for (i, e) in expected.iter().enumerate() {
        assert_eq!(
            e.weight.to_bits(),
            chart.get(i).weight,
            "seed {} entry {}",
            seed,
            i
        );
        assert_eq!(e.back, chart.get(i).back, "seed {} entry {}", seed, i);
    }
}

#[test]
fn charts_agree_without_pruning() {
    for seed in 0..400 {
        check(
            seed,
            Mode {
                threshold: None,
                rank: None,
            },
        );
    }
}

#[test]
fn charts_agree_with_a_threshold_beam() {
    for seed in 0..300 {
        check(
            seed,
            Mode {
                threshold: Some(0.3),
                rank: None,
            },
        );
    }
}

#[test]
fn charts_agree_with_a_beam_of_fixed_size() {
    for seed in 0..300 {
        check(
            seed,
            Mode {
                threshold: None,
                rank: Some(1 + (seed as usize) % 6),
            },
        );
    }
}

#[test]
fn charts_agree_with_both_beams() {
    for seed in 0..300 {
        check(
            seed,
            Mode {
                threshold: Some(0.1),
                rank: Some(2),
            },
        );
    }
}
