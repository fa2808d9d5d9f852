//! Confusable normalization: collapsing Unicode look-alike characters to a
//! canonical character, then lowercasing, so that patterns and sentences are
//! compared in the same alphabet.
//!
//! Every replacement in the built-in table is a single character, so the
//! replacement step preserves the character count of its input and censoring
//! stays positionally aligned with the original text.

use vstd::prelude::*;

verus! {

/// The character that `lower_of` maps through `str::to_lowercase`: the
/// lowercase form of a character sequence, as std defines it. The result
/// depends on the characters alone.
pub uninterp spec fn lower_of(s: Seq<char>) -> Seq<char>;

/// Whether a character is alphanumeric in the Unicode sense of
/// `char::is_alphanumeric`. The result depends on the character alone.
pub uninterp spec fn is_alphanum(c: char) -> bool;

/// Relies on `str::chars`: yields exactly the characters of the string, in
/// order, which is the string's view in Verus.
#[verifier::external_body]
pub fn chars_of(s: &str) -> (r: Vec<char>)
    ensures
        r@ == s@,
{
    s.chars().collect()
}

/// Relies on `String: FromIterator<char>`: collecting characters builds the
/// string of exactly those characters, in order.
#[verifier::external_body]
pub fn string_from_chars(chars: &Vec<char>) -> (r: String)
    ensures
        r@ == chars@,
{
    chars.iter().collect()
}

/// Relies on `str::to_lowercase`: the result is a function of the input
/// characters alone, named here by `lower_of`.
#[verifier::external_body]
pub fn lowercase(s: &String) -> (r: String)
    ensures
        r@ == lower_of(s@),
{
    s.to_lowercase()
}

/// Relies on `char::is_alphanumeric`: the result is a function of the
/// character alone, named here by `is_alphanum`.
#[verifier::external_body]
pub fn is_alphanumeric_char(c: char) -> (r: bool)
    ensures
        r == is_alphanum(c),
{
    c.is_alphanumeric()
}

/// The canonical replacement for a confusable character, or `None` for a
/// character that is not in the table. Each replacement is a single
/// character, so replacement never changes the length of a text.
pub open spec fn confusable_replacement(c: char) -> Option<char> {
    match c {
        // Cyrillic letters that render like Latin letters.
        '\u{0430}' => Some('a'),
        '\u{0435}' => Some('e'),
        '\u{043e}' => Some('o'),
        '\u{0440}' => Some('p'),
        '\u{0441}' => Some('c'),
        '\u{0443}' => Some('y'),
        '\u{0445}' => Some('x'),
        '\u{0455}' => Some('s'),
        '\u{0456}' => Some('i'),
        '\u{0458}' => Some('j'),
        '\u{0410}' => Some('A'),
        '\u{0412}' => Some('B'),
        '\u{0415}' => Some('E'),
        '\u{041a}' => Some('K'),
        '\u{041c}' => Some('M'),
        '\u{041d}' => Some('H'),
        '\u{041e}' => Some('O'),
        '\u{0420}' => Some('P'),
        '\u{0421}' => Some('C'),
        '\u{0422}' => Some('T'),
        '\u{0425}' => Some('X'),
        // Greek letters that render like Latin letters.
        '\u{03bf}' => Some('o'),
        '\u{03bd}' => Some('v'),
        '\u{0391}' => Some('A'),
        '\u{0392}' => Some('B'),
        '\u{0395}' => Some('E'),
        '\u{0396}' => Some('Z'),
        '\u{0397}' => Some('H'),
        '\u{0399}' => Some('I'),
        '\u{039a}' => Some('K'),
        '\u{039c}' => Some('M'),
        '\u{039d}' => Some('N'),
        '\u{039f}' => Some('O'),
        '\u{03a1}' => Some('P'),
        '\u{03a4}' => Some('T'),
        '\u{03a5}' => Some('Y'),
        '\u{03a7}' => Some('X'),
        // Fullwidth digits and a few fullwidth letters.
        '\u{ff10}' => Some('0'),
        '\u{ff11}' => Some('1'),
        '\u{ff12}' => Some('2'),
        '\u{ff13}' => Some('3'),
        '\u{ff14}' => Some('4'),
        '\u{ff15}' => Some('5'),
        '\u{ff16}' => Some('6'),
        '\u{ff17}' => Some('7'),
        '\u{ff18}' => Some('8'),
        '\u{ff19}' => Some('9'),
        '\u{ff41}' => Some('a'),
        '\u{ff45}' => Some('e'),
        '\u{ff4f}' => Some('o'),
        _ => None,
    }
}

/// The canonical form of one character: its table replacement, or itself.
pub open spec fn canon_char(c: char) -> char {
    match confusable_replacement(c) {
        Some(r) => r,
        None => c,
    }
}

/// The canonical form of a character sequence: every character replaced by
/// its canonical form. Length-preserving.
pub open spec fn canon_seq(s: Seq<char>) -> Seq<char> {
    s.map_values(|c: char| canon_char(c))
}

/// Full normalization: replace confusables, then lowercase.
pub open spec fn normalize_spec(s: Seq<char>) -> Seq<char> {
    lower_of(canon_seq(s))
}

/// Looks a character up in the confusable table.
pub fn lookup_confusable(c: char) -> (r: Option<char>)
    ensures
        r == confusable_replacement(c),
{
    match c {
        '\u{0430}' => Some('a'),
        '\u{0435}' => Some('e'),
        '\u{043e}' => Some('o'),
        '\u{0440}' => Some('p'),
        '\u{0441}' => Some('c'),
        '\u{0443}' => Some('y'),
        '\u{0445}' => Some('x'),
        '\u{0455}' => Some('s'),
        '\u{0456}' => Some('i'),
        '\u{0458}' => Some('j'),
        '\u{0410}' => Some('A'),
        '\u{0412}' => Some('B'),
        '\u{0415}' => Some('E'),
        '\u{041a}' => Some('K'),
        '\u{041c}' => Some('M'),
        '\u{041d}' => Some('H'),
        '\u{041e}' => Some('O'),
        '\u{0420}' => Some('P'),
        '\u{0421}' => Some('C'),
        '\u{0422}' => Some('T'),
        '\u{0425}' => Some('X'),
        '\u{03bf}' => Some('o'),
        '\u{03bd}' => Some('v'),
        '\u{0391}' => Some('A'),
        '\u{0392}' => Some('B'),
        '\u{0395}' => Some('E'),
        '\u{0396}' => Some('Z'),
        '\u{0397}' => Some('H'),
        '\u{0399}' => Some('I'),
        '\u{039a}' => Some('K'),
        '\u{039c}' => Some('M'),
        '\u{039d}' => Some('N'),
        '\u{039f}' => Some('O'),
        '\u{03a1}' => Some('P'),
        '\u{03a4}' => Some('T'),
        '\u{03a5}' => Some('Y'),
        '\u{03a7}' => Some('X'),
        '\u{ff10}' => Some('0'),
        '\u{ff11}' => Some('1'),
        '\u{ff12}' => Some('2'),
        '\u{ff13}' => Some('3'),
        '\u{ff14}' => Some('4'),
        '\u{ff15}' => Some('5'),
        '\u{ff16}' => Some('6'),
        '\u{ff17}' => Some('7'),
        '\u{ff18}' => Some('8'),
        '\u{ff19}' => Some('9'),
        '\u{ff41}' => Some('a'),
        '\u{ff45}' => Some('e'),
        '\u{ff4f}' => Some('o'),
        _ => None,
    }
}

/// Replaces every confusable character in `cs` by its canonical form.
pub fn canon_chars(cs: &Vec<char>) -> (r: Vec<char>)
    ensures
        r@ == canon_seq(cs@),
{
    let mut out: Vec<char> = Vec::new();
    let mut i: usize = 0;
    while i < cs.len()
        invariant
            0 <= i <= cs@.len(),
            out@ == canon_seq(cs@.take(i as int)),
        decreases cs@.len() - i,
    {
        let c = cs[i];
        match lookup_confusable(c) {
            Some(r) => out.push(r),
            None => out.push(c),
        }
        proof {
            assert(out@ =~= canon_seq(cs@.take(i + 1 as int)));
        }
        i = i + 1;
    }
    proof {
        assert(cs@.take(cs@.len() as int) =~= cs@);
    }
    out
}

/// Whether any character of `cs` is in the confusable table.
pub fn any_confusable(cs: &Vec<char>) -> (r: bool)
    ensures
        r == exists|i: int| 0 <= i < cs@.len() && confusable_replacement(cs@[i]) is Some,
{
    let mut i: usize = 0;
    while i < cs.len()
        invariant
            0 <= i <= cs@.len(),
            forall|j: int| 0 <= j < i ==> confusable_replacement(cs@[j]) is None,
        decreases cs@.len() - i,
    {
        if lookup_confusable(cs[i]).is_some() {
            return true;
        }
        i = i + 1;
    }
    false
}

/// Full normalization of a text: replace confusables, then lowercase.
pub fn normalize(text: &str) -> (r: String)
    ensures
        r@ == normalize_spec(text@),
{
    let cs = chars_of(text);
    let replaced = canon_chars(&cs);
    let replaced_string = string_from_chars(&replaced);
    lowercase(&replaced_string)
}

/// Values that can report and replace confusable characters.
pub trait Confusable {
    /// Whether any character of `self` is in the confusable table.
    fn contains_confusables(&self) -> bool;

    /// `self` with every confusable character replaced by its canonical
    /// form. Lowercasing is a separate step and is not applied here.
    fn replace_confusables(&self) -> String;
}

impl Confusable for char {
    fn contains_confusables(&self) -> (r: bool) {
        lookup_confusable(*self).is_some()
    }

    fn replace_confusables(&self) -> (r: String) {
        let mut one: Vec<char> = Vec::new();
        match lookup_confusable(*self) {
            Some(c) => one.push(c),
            None => one.push(*self),
        }
        string_from_chars(&one)
    }
}

impl Confusable for String {
    fn contains_confusables(&self) -> (r: bool) {
        let cs = chars_of(self.as_str());
        any_confusable(&cs)
    }

    fn replace_confusables(&self) -> (r: String) {
        let cs = chars_of(self.as_str());
        let replaced = canon_chars(&cs);
        string_from_chars(&replaced)
    }
}

} // verus!
