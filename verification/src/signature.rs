//! Signatures of unknown words: what stands for a word that the lexicon
//! does not hold, made of the word's letter case, digits and punctuation.

use vstd::prelude::*;
use vstd::utf8::encode_utf8;
use crate::text::{chars_of, push_char};

verus! {

/// Whether `c` is a lowercase letter, as `char::is_lowercase` decides it.
pub uninterp spec fn is_lowercase_char(c: char) -> bool;

/// Whether `c` is an uppercase letter, as `char::is_uppercase` decides it.
pub uninterp spec fn is_uppercase_char(c: char) -> bool;

/// Whether `c` is a letter, as `char::is_alphabetic` decides it.
pub uninterp spec fn is_alphabetic_char(c: char) -> bool;

/// Whether `c` is a number, as `char::is_numeric` decides it.
pub uninterp spec fn is_numeric_char(c: char) -> bool;

/// The lowercase form of `c`, as `char::to_lowercase` gives it.
pub uninterp spec fn lowercase_of(c: char) -> Seq<char>;

/// Calls `char::is_lowercase`: whether the character has the Unicode
/// property `Lowercase`. The answer depends on the character alone.
#[verifier::external_body]
fn char_is_lowercase(c: char) -> (r: bool)
    ensures
        r == is_lowercase_char(c),
{
    c.is_lowercase()
}

/// Calls `char::is_uppercase`: whether the character has the Unicode
/// property `Uppercase`. The answer depends on the character alone.
#[verifier::external_body]
fn char_is_uppercase(c: char) -> (r: bool)
    ensures
        r == is_uppercase_char(c),
{
    c.is_uppercase()
}

/// Calls `char::is_alphabetic`: whether the character has the Unicode
/// property `Alphabetic`. The answer depends on the character alone.
#[verifier::external_body]
fn char_is_alphabetic(c: char) -> (r: bool)
    ensures
        r == is_alphabetic_char(c),
{
    c.is_alphabetic()
}

/// Calls `char::is_numeric`: whether the character is in one of the Unicode
/// number categories. The answer depends on the character alone.
#[verifier::external_body]
fn char_is_numeric(c: char) -> (r: bool)
    ensures
        r == is_numeric_char(c),
{
    c.is_numeric()
}

/// Calls `char::to_lowercase` and collects the characters it yields into a
/// string. They depend on the character alone.
#[verifier::external_body]
fn char_to_lowercase(c: char) -> (r: String)
    ensures
        r@ == lowercase_of(c),
{
    c.to_lowercase().to_string()
}

/// What the letters of a word look like.
#[derive(Debug, PartialEq, Eq, Clone, Copy)]
pub enum LetterSuffix {
    AllCapitalised,
    StartCapitalised,
    Capitalised,
    HasLower,
    HasLetter,
    NoLetter,
}

/// Whether a word is a number or holds one.
#[derive(Debug, PartialEq, Eq, Clone, Copy)]
pub enum NumberSuffix {
    FullNumber,
    ContainsNumber,
}

/// The signature of a word.
#[derive(Debug, PartialEq, Eq, Clone)]
pub struct UnkSignature {
    letter_suffix: Option<LetterSuffix>,
    number_suffix: Option<NumberSuffix>,
    has_dash: bool,
    has_period: bool,
    has_comma: bool,
    word_suffix: Option<String>,
}

pub ghost struct UnkSignatureView {
    pub letter_suffix: Option<LetterSuffix>,
    pub number_suffix: Option<NumberSuffix>,
    pub has_dash: bool,
    pub has_period: bool,
    pub has_comma: bool,
    pub word_suffix: Option<Seq<char>>,
}

impl View for UnkSignature {
    type V = UnkSignatureView;

    closed spec fn view(&self) -> UnkSignatureView {
        UnkSignatureView {
            letter_suffix: self.letter_suffix,
            number_suffix: self.number_suffix,
            has_dash: self.has_dash,
            has_period: self.has_period,
            has_comma: self.has_comma,
            word_suffix: match self.word_suffix {
                Some(s) => Some(s@),
                None => None,
            },
        }
    }
}

/// What the character tables say of a character.
#[derive(Copy, Clone, PartialEq, Eq, Debug)]
pub struct CharKind {
    pub lowercase: bool,
    pub uppercase: bool,
    pub alphabetic: bool,
    pub numeric: bool,
}

/// What the character tables of std say of `c`.
pub open spec fn kind_of(c: char) -> CharKind {
    CharKind {
        lowercase: is_lowercase_char(c),
        uppercase: is_uppercase_char(c),
        alphabetic: is_alphabetic_char(c),
        numeric: is_numeric_char(c),
    }
}

/// What the character tables of std say of the characters of `w`.
pub open spec fn kinds_of(w: Seq<char>) -> Seq<CharKind> {
    Seq::new(w.len(), |i: int| kind_of(w[i]))
}

/// Whether a lowercase letter is among the characters.
pub open spec fn has_lower(kinds: Seq<CharKind>) -> bool {
    exists|i: int| 0 <= i < kinds.len() && (#[trigger] kinds[i]).lowercase
}

/// Whether a letter that is not lowercase is among the characters.
pub open spec fn has_other_letter(kinds: Seq<CharKind>) -> bool {
    exists|i: int| 0 <= i < kinds.len() && is_other_letter(#[trigger] kinds[i])
}

pub open spec fn is_other_letter(k: CharKind) -> bool {
    !k.lowercase && k.alphabetic
}

/// Whether a number character is among the characters.
pub open spec fn has_numeric(kinds: Seq<CharKind>) -> bool {
    exists|i: int| 0 <= i < kinds.len() && (#[trigger] kinds[i]).numeric
}

/// Whether a character that is no number character is among the characters.
pub open spec fn has_non_numeric(kinds: Seq<CharKind>) -> bool {
    exists|i: int| 0 <= i < kinds.len() && !(#[trigger] kinds[i]).numeric
}

/// Whether `w` takes more than three bytes in UTF-8.
pub open spec fn is_long(w: Seq<char>) -> bool {
    encode_utf8(w).len() as usize > 3
}

/// The signature of a word `w` at position `idx` of its sentence, where
/// `kinds` is what the character tables say of its characters, `long` says
/// whether it takes more than three bytes, and `lowered` is its last
/// character in lowercase.
///
/// The empty word has the empty signature. Otherwise:
/// - the letters: a word that starts with an uppercase letter is all
///   capitalised when it has no lowercase letter, else capitalised, at the
///   start of the sentence or elsewhere; any other word has a lowercase
///   letter, or another letter, or no letter;
/// - the digits: all of the word, some of it, or none;
/// - whether it holds `-`, `.` and `,`;
/// - its last character in lowercase, where the word is long and ends in a letter.
pub open spec fn signature_from(
    w: Seq<char>,
    kinds: Seq<CharKind>,
    long: bool,
    lowered: Seq<char>,
    idx: int,
) -> UnkSignatureView {
    if w.len() == 0 {
        UnkSignatureView {
            letter_suffix: None,
            number_suffix: None,
            has_dash: false,
            has_period: false,
            has_comma: false,
            word_suffix: None,
        }
    } else {
        UnkSignatureView {
            letter_suffix: Some(
                if kinds[0].uppercase {
                    if !has_lower(kinds) {
                        LetterSuffix::AllCapitalised
                    } else if idx == 0 {
                        LetterSuffix::StartCapitalised
                    } else {
                        LetterSuffix::Capitalised
                    }
                } else if has_lower(kinds) {
                    LetterSuffix::HasLower
                } else if has_other_letter(kinds) {
                    LetterSuffix::HasLetter
                } else {
                    LetterSuffix::NoLetter
                },
            ),
            number_suffix: if has_numeric(kinds) && !has_non_numeric(kinds) {
                Some(NumberSuffix::FullNumber)
            } else if has_numeric(kinds) {
                Some(NumberSuffix::ContainsNumber)
            } else {
                None
            },
            has_dash: w.contains('-'),
            has_period: w.contains('.'),
            has_comma: w.contains(','),
            word_suffix: if long && kinds.last().alphabetic {
                Some(lowered)
            } else {
                None
            },
        }
    }
}

/// The signature of the word `w` at position `idx` of its sentence, with
/// the character tables of std.
pub open spec fn signature_of(w: Seq<char>, idx: int) -> UnkSignatureView {
    signature_from(
        w,
        kinds_of(w),
        is_long(w),
        if w.len() > 0 {
            lowercase_of(w.last())
        } else {
            Seq::empty()
        },
        idx,
    )
}

/// The part of a signature's text for the letters of the word.
pub open spec fn letter_text(l: Option<LetterSuffix>) -> Seq<char> {
    match l {
        Some(LetterSuffix::AllCapitalised) => "-AC"@,
        Some(LetterSuffix::StartCapitalised) => "-SC"@,
        Some(LetterSuffix::Capitalised) => "-C"@,
        Some(LetterSuffix::HasLower) => "-L"@,
        Some(LetterSuffix::HasLetter) => "-U"@,
        Some(LetterSuffix::NoLetter) => "-S"@,
        None => Seq::empty(),
    }
}

/// The part of a signature's text for the digits of the word.
pub open spec fn number_text(n: Option<NumberSuffix>) -> Seq<char> {
    match n {
        Some(NumberSuffix::FullNumber) => "-N"@,
        Some(NumberSuffix::ContainsNumber) => "-n"@,
        None => Seq::empty(),
    }
}

/// `text` where `flag` holds, else nothing.
pub open spec fn flag_text(flag: bool, text: Seq<char>) -> Seq<char> {
    if flag {
        text
    } else {
        Seq::empty()
    }
}

/// The part of a signature's text for the end of the word.
pub open spec fn suffix_text(suffix: Option<Seq<char>>) -> Seq<char> {
    match suffix {
        Some(s) => seq!['-'] + s,
        None => Seq::empty(),
    }
}

/// The text of a signature: `UNK` and one part for each thing the signature holds.
pub open spec fn signature_text(s: UnkSignatureView) -> Seq<char> {
    "UNK"@ + letter_text(s.letter_suffix) + number_text(s.number_suffix) + flag_text(
        s.has_dash,
        "-H"@,
    ) + flag_text(s.has_period, "-P"@) + flag_text(s.has_comma, "-C"@) + suffix_text(s.word_suffix)
}

/// What the character tables of std say of `c`.
pub fn char_kind(c: char) -> (r: CharKind)
    ensures
        r == kind_of(c),
{
    CharKind {
        lowercase: char_is_lowercase(c),
        uppercase: char_is_uppercase(c),
        alphabetic: char_is_alphabetic(c),
        numeric: char_is_numeric(c),
    }
}

impl UnkSignature {
    /// The signature of `word` at position `idx` of its sentence.
    pub fn new(word: &str, idx: usize) -> (r: Self)
        ensures
            r@ == signature_of(word@, idx as int),
    {
        let w = chars_of(word);
        let mut kinds: Vec<CharKind> = Vec::new();
        let mut k: usize = 0;
        while k < w.len()
            invariant
                k <= w.len(),
                kinds@.len() == k,
                forall|i: int| 0 <= i < k ==> #[trigger] kinds@[i] == kind_of(w@[i]),
            decreases w.len() - k,
        {
            kinds.push(char_kind(w[k]));
            k += 1;
        }
        assert(kinds@ =~= kinds_of(w@));
        let lowered = if w.len() > 0 {
            char_to_lowercase(w[w.len() - 1])
        } else {
            String::new()
        };
        UnkSignature::from_kinds(&w, &kinds, word.len() > 3, lowered, idx)
    }

    /// The signature of the word with the characters `w` at position `idx`
    /// of its sentence, where `kinds` is what the character tables say of
    /// the characters, `long` says whether the word takes more than three
    /// bytes, and `lowered` is its last character in lowercase.
    pub fn from_kinds(
        w: &Vec<char>,
        kinds: &Vec<CharKind>,
        long: bool,
        lowered: String,
        idx: usize,
    ) -> (r: Self)
        requires
            kinds@.len() == w@.len(),
        ensures
            r@ == signature_from(w@, kinds@, long, lowered@, idx as int),
    {
        if w.len() == 0 {
            return UnkSignature {
                letter_suffix: None,
                number_suffix: None,
                has_dash: false,
                has_period: false,
                has_comma: false,
                word_suffix: None,
            };
        }
        let mut lower = false;
        let mut other_letter = false;
        let mut numeric = false;
        let mut non_numeric = false;
        let mut dash = false;
        let mut period = false;
        let mut comma = false;
        let mut k: usize = 0;
        while k < w.len()
            invariant
                k <= w.len(),
                kinds@.len() == w@.len(),
                lower == has_lower(kinds@.take(k as int)),
                other_letter == has_other_letter(kinds@.take(k as int)),
                numeric == has_numeric(kinds@.take(k as int)),
                non_numeric == has_non_numeric(kinds@.take(k as int)),
                dash == w@.take(k as int).contains('-'),
                period == w@.take(k as int).contains('.'),
                comma == w@.take(k as int).contains(','),
            decreases w.len() - k,
        {
            let c = w[k];
            let kind = kinds[k];
            proof {
                assert(w@.take(k as int + 1) =~= w@.take(k as int).push(c));
                assert(kinds@.take(k as int + 1) =~= kinds@.take(k as int).push(kind));
                lemma_has_step(kinds@.take(k as int), kind);
                lemma_contains_step(w@.take(k as int), c, '-');
                lemma_contains_step(w@.take(k as int), c, '.');
                lemma_contains_step(w@.take(k as int), c, ',');
            }
            if kind.lowercase {
                lower = true;
            } else if kind.alphabetic {
                other_letter = true;
            }
            if kind.numeric {
                numeric = true;
            } else {
                non_numeric = true;
            }
            if c == '-' {
                dash = true;
            }
            if c == '.' {
                period = true;
            }
            if c == ',' {
                comma = true;
            }
            k += 1;
        }
        proof {
            assert(w@.take(w.len() as int) =~= w@);
            assert(kinds@.take(kinds.len() as int) =~= kinds@);
        }
        let word_suffix = if long && kinds[kinds.len() - 1].alphabetic {
            Some(lowered)
        } else {
            None
        };
        let letter_suffix = if kinds[0].uppercase {
            if !lower {
                LetterSuffix::AllCapitalised
            } else if idx == 0 {
                LetterSuffix::StartCapitalised
            } else {
                LetterSuffix::Capitalised
            }
        } else if lower {
            LetterSuffix::HasLower
        } else if other_letter {
            LetterSuffix::HasLetter
        } else {
            LetterSuffix::NoLetter
        };
        let number_suffix = if numeric && !non_numeric {
            Some(NumberSuffix::FullNumber)
        } else if numeric {
            Some(NumberSuffix::ContainsNumber)
        } else {
            None
        };
        UnkSignature {
            letter_suffix: Some(letter_suffix),
            number_suffix,
            has_dash: dash,
            has_period: period,
            has_comma: comma,
            word_suffix,
        }
    }

    /// The text of the signature.
    pub fn to_text(&self) -> (r: String)
        ensures
            r@ == signature_text(self@),
    {
        let mut out = String::from_str("UNK");
        write_letters(&mut out, self.letter_suffix);
        write_numbers(&mut out, self.number_suffix);
        write_flag(&mut out, self.has_dash, "-H");
        write_flag(&mut out, self.has_period, "-P");
        write_flag(&mut out, self.has_comma, "-C");
        write_suffix(&mut out, &self.word_suffix);
        out
    }
}

fn write_letters(out: &mut String, l: Option<LetterSuffix>)
    ensures
        final(out)@ == old(out)@ + letter_text(l),
{
    match l {
        Some(LetterSuffix::AllCapitalised) => out.append("-AC"),
        Some(LetterSuffix::StartCapitalised) => out.append("-SC"),
        Some(LetterSuffix::Capitalised) => out.append("-C"),
        Some(LetterSuffix::HasLower) => out.append("-L"),
        Some(LetterSuffix::HasLetter) => out.append("-U"),
        Some(LetterSuffix::NoLetter) => out.append("-S"),
        None => {
            assert(out@ =~= old(out)@ + Seq::<char>::empty());
        },
    }
}

fn write_numbers(out: &mut String, n: Option<NumberSuffix>)
    ensures
        final(out)@ == old(out)@ + number_text(n),
{
    match n {
        Some(NumberSuffix::FullNumber) => out.append("-N"),
        Some(NumberSuffix::ContainsNumber) => out.append("-n"),
        None => {
            assert(out@ =~= old(out)@ + Seq::<char>::empty());
        },
    }
}

fn write_flag(out: &mut String, flag: bool, text: &str)
    ensures
        final(out)@ == old(out)@ + flag_text(flag, text@),
{
    if flag {
        out.append(text);
    } else {
        assert(out@ =~= old(out)@ + Seq::<char>::empty());
    }
}

fn write_suffix(out: &mut String, suffix: &Option<String>)
    ensures
        final(out)@ == old(out)@ + suffix_text(
            match *suffix {
                Some(s) => Some(s@),
                None => None,
            },
        ),
{
    match suffix {
        Some(s) => {
            push_char(out, '-');
            out.append(s.as_str());
            assert(out@ =~= old(out)@ + (seq!['-'] + s@));
        },
        None => {
            assert(out@ =~= old(out)@ + Seq::<char>::empty());
        },
    }
}

/// What one more character adds to what the characters hold.
proof fn lemma_has_step(w: Seq<CharKind>, c: CharKind)
    ensures
        has_lower(w.push(c)) == (has_lower(w) || c.lowercase),
        has_other_letter(w.push(c)) == (has_other_letter(w) || is_other_letter(c)),
        has_numeric(w.push(c)) == (has_numeric(w) || c.numeric),
        has_non_numeric(w.push(c)) == (has_non_numeric(w) || !c.numeric),
{
    let n = w.push(c);
    let k = w.len() as int;
    assert(n[k] == c);
    assert forall|i: int| 0 <= i < k implies n[i] == w[i] by {}
    if has_lower(w) {
        let i = choose|i: int| 0 <= i < w.len() && (#[trigger] w[i]).lowercase;
        assert(n[i].lowercase);
    }
    if has_other_letter(w) {
        let i = choose|i: int| 0 <= i < w.len() && is_other_letter(#[trigger] w[i]);
        assert(is_other_letter(n[i]));
    }
    if has_numeric(w) {
        let i = choose|i: int| 0 <= i < w.len() && (#[trigger] w[i]).numeric;
        assert(n[i].numeric);
    }
    if has_non_numeric(w) {
        let i = choose|i: int| 0 <= i < w.len() && !(#[trigger] w[i]).numeric;
        assert(!n[i].numeric);
    }
    if has_lower(n) {
        let i = choose|i: int| 0 <= i < n.len() && (#[trigger] n[i]).lowercase;
        if i < k {
            assert(w[i].lowercase);
        }
    }
    if has_other_letter(n) {
        let i = choose|i: int| 0 <= i < n.len() && is_other_letter(#[trigger] n[i]);
        if i < k {
            assert(is_other_letter(w[i]));
        }
    }
    if has_numeric(n) {
        let i = choose|i: int| 0 <= i < n.len() && (#[trigger] n[i]).numeric;
        if i < k {
            assert(w[i].numeric);
        }
    }
    if has_non_numeric(n) {
        let i = choose|i: int| 0 <= i < n.len() && !(#[trigger] n[i]).numeric;
        if i < k {
            assert(!w[i].numeric);
        }
    }
}

proof fn lemma_contains_step(w: Seq<char>, c: char, x: char)
    ensures
        w.push(c).contains(x) == (w.contains(x) || c == x),
{
    let n = w.push(c);
    let k = w.len() as int;
    assert(n[k] == c);
    if w.contains(x) {
        let i = choose|i: int| 0 <= i < w.len() && w[i] == x;
        assert(n[i] == x);
    }
    if n.contains(x) {
        let i = choose|i: int| 0 <= i < n.len() && n[i] == x;
        if i < k {
            assert(w[i] == x);
        }
    }
}

} // verus!
