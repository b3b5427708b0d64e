//! Text as sequences of characters: the bridge between `str` and the
//! character vectors that the readers of this crate scan by position.

use vstd::prelude::*;

verus! {

/// Whether `c` is whitespace: a character with the Unicode property `White_Space`.
pub open spec fn is_whitespace_char(c: char) -> bool {
    let u = c as u32;
    ||| 0x09 <= u <= 0x0D
    ||| u == 0x20
    ||| u == 0x85
    ||| u == 0xA0
    ||| u == 0x1680
    ||| 0x2000 <= u <= 0x200A
    ||| u == 0x2028
    ||| u == 0x2029
    ||| u == 0x202F
    ||| u == 0x205F
    ||| u == 0x3000
}

pub fn char_is_whitespace(c: char) -> (r: bool)
    ensures
        r == is_whitespace_char(c),
{
    let u = c as u32;
    (0x09 <= u && u <= 0x0D) || u == 0x20 || u == 0x85 || u == 0xA0 || u == 0x1680 || (0x2000 <= u
        && u <= 0x200A) || u == 0x2028 || u == 0x2029 || u == 0x202F || u == 0x205F || u == 0x3000
}

/// Calls `String::push`, which appends one character to the end of the string.
#[verifier::external_body]
pub(crate) fn push_char(s: &mut String, c: char)
    ensures
        final(s)@ == old(s)@.push(c),
{
    s.push(c)
}

/// The characters of `s`, in order.
pub fn chars_of(s: &str) -> (r: Vec<char>)
    ensures
        r@ == s@,
{
    let mut out: Vec<char> = Vec::new();
    for c in it: s.chars()
        invariant
            out@ == it.seq().take(it.index() as int),
            it.seq() == s@,
    {
        out.push(c);
    }
    out
}

/// The string made of `chars[from..to]`.
pub fn string_of(chars: &Vec<char>, from: usize, to: usize) -> (r: String)
    requires
        from <= to <= chars.len(),
    ensures
        r@ == chars@.subrange(from as int, to as int),
{
    let mut out = String::new();
    let mut i: usize = from;
    while i < to
        invariant
            from <= i <= to <= chars.len(),
            out@ == chars@.subrange(from as int, i as int),
        decreases to - i,
    {
        push_char(&mut out, chars[i]);
        i += 1;
    }
    out
}

/// The sets of characters at which a scan stops.
#[derive(Clone, Copy, Debug, PartialEq, Eq)]
pub enum CharClass {
    /// `|` and `^`: the end of a label's own symbol.
    LabelEnd,
    /// `|`, `^`, `<`, `>` and `,`: the end of a symbol inside an annotation.
    ItemEnd,
    /// `(`, `)`, space and tab: the end of an atom.
    AtomEnd,
    /// Space and tab: the end of a token.
    TokenEnd,
    /// Everything but space, tab, carriage return and line feed.
    NotBlank,
    /// Everything that is not Unicode whitespace.
    NotWhitespace,
}

/// Space, tab, carriage return or line feed.
pub open spec fn is_blank(c: char) -> bool {
    c == ' ' || c == '\t' || c == '\r' || c == '\n'
}

/// Whether `c` belongs to the class `k`.
pub open spec fn in_class(k: CharClass, c: char) -> bool {
    match k {
        CharClass::LabelEnd => c == '|' || c == '^',
        CharClass::ItemEnd => c == '|' || c == '^' || c == '<' || c == '>' || c == ',',
        CharClass::AtomEnd => c == '(' || c == ')' || c == ' ' || c == '\t',
        CharClass::TokenEnd => c == ' ' || c == '\t',
        CharClass::NotBlank => !is_blank(c),
        CharClass::NotWhitespace => !is_whitespace_char(c),
    }
}

/// The first position at or after `p` that holds a character of class `k`,
/// or the length of `s` when there is none.
pub open spec fn find(s: Seq<char>, p: int, k: CharClass) -> int
    decreases s.len() - p,
{
    if 0 <= p < s.len() && !in_class(k, s[p]) {
        find(s, p + 1, k)
    } else {
        p
    }
}

/// The length of `s` once its trailing whitespace is cut off.
pub open spec fn trim_end(s: Seq<char>) -> int
    decreases s.len(),
{
    if s.len() > 0 && is_whitespace_char(s.last()) {
        trim_end(s.drop_last())
    } else {
        s.len() as int
    }
}

/// `s` without its leading and trailing whitespace.
pub open spec fn trimmed(s: Seq<char>) -> Seq<char> {
    let e = trim_end(s);
    let b = find(s, 0, CharClass::NotWhitespace);
    if b < e {
        s.subrange(b, e)
    } else {
        Seq::empty()
    }
}

/// A position `q` with a character of the class, before which none occurs, is what `find` gives.
pub proof fn lemma_find_is(s: Seq<char>, p: int, q: int, k: CharClass)
    requires
        0 <= p <= q <= s.len(),
        forall|i: int| p <= i < q ==> !in_class(k, #[trigger] s[i]),
        q < s.len() ==> in_class(k, s[q]),
    ensures
        find(s, p, k) == q,
    decreases q - p,
{
    if p < q {
        lemma_find_is(s, p + 1, q, k);
    }
}

/// A text that starts and ends with something other than whitespace is its own trimmed form.
pub proof fn lemma_trimmed_same(s: Seq<char>)
    requires
        s.len() > 0,
        !is_whitespace_char(s[0]),
        !is_whitespace_char(s.last()),
    ensures
        trimmed(s) == s,
{
    assert(s.subrange(0, s.len() as int) =~= s);
}

pub fn char_in_class(k: CharClass, c: char) -> (r: bool)
    ensures
        r == in_class(k, c),
{
    match k {
        CharClass::LabelEnd => c == '|' || c == '^',
        CharClass::ItemEnd => c == '|' || c == '^' || c == '<' || c == '>' || c == ',',
        CharClass::AtomEnd => c == '(' || c == ')' || c == ' ' || c == '\t',
        CharClass::TokenEnd => c == ' ' || c == '\t',
        CharClass::NotBlank => !(c == ' ' || c == '\t' || c == '\r' || c == '\n'),
        CharClass::NotWhitespace => !char_is_whitespace(c),
    }
}

/// Scans `chars` from `p` to the first character of class `k`.
pub fn find_from(chars: &Vec<char>, p: usize, k: CharClass) -> (r: usize)
    requires
        p <= chars.len(),
    ensures
        r == find(chars@, p as int, k),
        p <= r <= chars.len(),
{
    let mut i: usize = p;
    while i < chars.len() && !char_in_class(k, chars[i])
        invariant
            p <= i <= chars.len(),
            find(chars@, p as int, k) == find(chars@, i as int, k),
        decreases chars.len() - i,
    {
        i += 1;
    }
    i
}

/// A copy of `chars` without its leading and trailing whitespace.
pub fn trim(chars: &Vec<char>) -> (r: Vec<char>)
    ensures
        r@ == trimmed(chars@),
{
    let mut e: usize = chars.len();
    proof {
        assert(chars@.take(chars.len() as int) =~= chars@);
    }
    while e > 0 && char_is_whitespace(chars[e - 1])
        invariant
            e <= chars.len(),
            trim_end(chars@) == trim_end(chars@.take(e as int)),
        decreases e,
    {
        proof {
            assert(chars@.take(e as int).drop_last() =~= chars@.take(e as int - 1));
        }
        e -= 1;
    }
    let b = find_from(chars, 0, CharClass::NotWhitespace);
    let mut out: Vec<char> = Vec::new();
    if b < e {
        let mut i: usize = b;
        while i < e
            invariant
                b <= i <= e <= chars.len(),
                out@ == chars@.subrange(b as int, i as int),
            decreases e - i,
        {
            out.push(chars[i]);
            i += 1;
        }
    }
    out
}

} // verus!
