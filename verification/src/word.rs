//! The pattern compiler and the matching engine: a pattern string is
//! compiled into a sequence of [`WordPart`]s plus two boundary-binding
//! flags, and `matches` scans a [`Sentence`] for occurrences, marking each
//! one it records.

use vstd::prelude::*;

use crate::confusables::chars_of;
use crate::confusables::normalize;
use crate::confusables::normalize_spec;
use crate::confusables::string_from_chars;
use crate::sentence::Boundary;
use crate::sentence::Sentence;
use crate::sentence::SentenceModel;
use crate::sentence::mark_model;
use crate::word_part::WordPart;
use crate::word_part::part_matches;
use crate::word_part::part_wf;

verus! {

/// The ways a pattern can fail to compile.
#[derive(Clone, Copy, PartialEq, Eq, Structural, Debug)]
pub enum WordError {
    /// The pattern compiles to no part at all.
    EmptyWord,
    /// A character group is opened but never closed.
    UnterminatedGroup,
    /// An escape character stands at the end of the pattern.
    TrailingEscape,
    /// A wildcard is the only part of the pattern.
    WildcardOnly,
}

/// Parses a character group, already past its opening bracket: collects
/// characters up to the closing bracket, deduplicating in first-seen order,
/// with `\` escaping the following character. Returns the group's
/// characters and the rest of the pattern.
pub open spec fn parse_group(s: Seq<char>, acc: Seq<char>) -> Result<
    (Seq<char>, Seq<char>),
    WordError,
>
    decreases s.len(),
{
    if s.len() == 0 {
        Err(WordError::UnterminatedGroup)
    } else if s[0] == ']' {
        Ok((acc, s.skip(1)))
    } else if s[0] == '\\' {
        if s.len() == 1 {
            Err(WordError::UnterminatedGroup)
        } else {
            parse_group(
                s.skip(2),
                if acc.contains(s[1]) {
                    acc
                } else {
                    acc.push(s[1])
                },
            )
        }
    } else {
        parse_group(
            s.skip(1),
            if acc.contains(s[0]) {
                acc
            } else {
                acc.push(s[0])
            },
        )
    }
}

/// A successfully parsed group consumes at least its closing bracket.
proof fn lemma_parse_group_len(s: Seq<char>, acc: Seq<char>)
    ensures
        parse_group(s, acc) is Ok ==> parse_group(s, acc)->Ok_0.1.len() < s.len(),
    decreases s.len(),
{
    if s.len() == 0 {
    } else if s[0] == ']' {
    } else if s[0] == '\\' {
        if s.len() > 1 {
            lemma_parse_group_len(
                s.skip(2),
                if acc.contains(s[1]) {
                    acc
                } else {
                    acc.push(s[1])
                },
            );
        }
    } else {
        lemma_parse_group_len(
            s.skip(1),
            if acc.contains(s[0]) {
                acc
            } else {
                acc.push(s[0])
            },
        );
    }
}

/// A parsed group's characters are fewer than what it consumed together
/// with what had been collected before.
proof fn lemma_parse_group_consumed(s: Seq<char>, acc: Seq<char>)
    ensures
        parse_group(s, acc) is Ok ==> parse_group(s, acc)->Ok_0.0.len() + parse_group(
            s,
            acc,
        )->Ok_0.1.len() < s.len() + acc.len(),
    decreases s.len(),
{
    if s.len() == 0 {
    } else if s[0] == ']' {
    } else if s[0] == '\\' {
        if s.len() > 1 {
            lemma_parse_group_consumed(
                s.skip(2),
                if acc.contains(s[1]) {
                    acc
                } else {
                    acc.push(s[1])
                },
            );
        }
    } else {
        lemma_parse_group_consumed(
            s.skip(1),
            if acc.contains(s[0]) {
                acc
            } else {
                acc.push(s[0])
            },
        );
    }
}

/// A parsed group stays deduplicated.
proof fn lemma_parse_group_wf(s: Seq<char>, acc: Seq<char>)
    requires
        forall|x: int, y: int| 0 <= x < y < acc.len() ==> acc[x] != acc[y],
    ensures
        parse_group(s, acc) is Ok ==> ({
            let g = parse_group(s, acc)->Ok_0.0;
            forall|x: int, y: int| 0 <= x < y < g.len() ==> g[x] != g[y]
        }),
    decreases s.len(),
{
    if s.len() == 0 {
    } else if s[0] == ']' {
    } else if s[0] == '\\' {
        if s.len() > 1 {
            let acc2 = if acc.contains(s[1]) {
                acc
            } else {
                acc.push(s[1])
            };
            lemma_parse_group_wf(s.skip(2), acc2);
        }
    } else {
        let acc2 = if acc.contains(s[0]) {
            acc
        } else {
            acc.push(s[0])
        };
        lemma_parse_group_wf(s.skip(1), acc2);
    }
}

/// Puts one part in front of a successful parse, passing an error through.
pub open spec fn with_part(p: WordPart, r: Result<(Seq<WordPart>, Seq<char>), WordError>) -> Result<
    (Seq<WordPart>, Seq<char>),
    WordError,
> {
    match r {
        Ok(rest) => Ok((seq![p] + rest.0, rest.1)),
        Err(e) => Err(e),
    }
}

/// Parses a whole pattern into its raw part sequence and the class buffer
/// its groups refer to. `gpos` is the length of the class buffer already
/// filled before this suffix; the returned buffer holds only what this
/// suffix contributes. `**` is an `AnyWildcard`, a lone `*` a
/// `SingleWildcard`, `[...]` a group (dropped when empty, collapsed to a
/// `Single` when one character remains), `\` escapes the next character,
/// and anything else is a literal.
pub open spec fn parse_parts(s: Seq<char>, gpos: int) -> Result<
    (Seq<WordPart>, Seq<char>),
    WordError,
>
    decreases s.len(),
    via parse_parts_decreases
{
    if s.len() == 0 {
        Ok((Seq::empty(), Seq::empty()))
    } else if s[0] == '*' {
        if s.len() >= 2 && s[1] == '*' {
            with_part(WordPart::AnyWildcard, parse_parts(s.skip(2), gpos))
        } else {
            with_part(WordPart::SingleWildcard, parse_parts(s.skip(1), gpos))
        }
    } else if s[0] == '[' {
        match parse_group(s.skip(1), Seq::empty()) {
            Ok(g_rest) => {
                let g = g_rest.0;
                let rest = g_rest.1;
                if g.len() == 0 {
                    parse_parts(rest, gpos)
                } else if g.len() == 1 {
                    with_part(WordPart::Single(g[0]), parse_parts(rest, gpos))
                } else {
                    match parse_parts(rest, gpos + g.len()) {
                        Ok(pr) => Ok(
                            (
                                seq![
                                    WordPart::Group(gpos as usize, (gpos + g.len()) as usize),
                                ] + pr.0,
                                g + pr.1,
                            ),
                        ),
                        Err(e) => Err(e),
                    }
                }
            },
            Err(e) => Err(e),
        }
    } else if s[0] == '\\' {
        if s.len() == 1 {
            Err(WordError::TrailingEscape)
        } else {
            with_part(WordPart::Single(s[1]), parse_parts(s.skip(2), gpos))
        }
    } else {
        with_part(WordPart::Single(s[0]), parse_parts(s.skip(1), gpos))
    }
}

#[via_fn]
proof fn parse_parts_decreases(s: Seq<char>, gpos: int) {
    if s.len() > 0 && s[0] == '[' {
        lemma_parse_group_len(s.skip(1), Seq::empty());
    }
}

/// The model of a compiled word.
pub ghost struct WordModel {
    pub parts: Seq<WordPart>,
    pub groups: Seq<char>,
    pub bound_left: bool,
    pub bound_right: bool,
}

/// What compilation guarantees of its result: at least one part, every
/// class range well-formed for the class buffer, and a bound side never
/// starting or ending with the unanchored wildcard.
pub open spec fn word_wf(m: WordModel) -> bool {
    &&& m.parts.len() >= 1
    &&& forall|k: int| 0 <= k < m.parts.len() ==> part_wf(#[trigger] m.parts[k], m.groups)
    &&& m.bound_left ==> m.parts[0] != WordPart::AnyWildcard
    &&& m.bound_right ==> m.parts[m.parts.len() - 1] != WordPart::AnyWildcard
}

/// Compiles a normalized pattern: parses it into raw parts, rejects an
/// empty result, and turns a leading or trailing `AnyWildcard` into an
/// unbound side, rejecting a pattern with nothing else in it.
pub open spec fn compile_spec(s: Seq<char>) -> Result<WordModel, WordError> {
    match parse_parts(s, 0) {
        Err(e) => Err(e),
        Ok(pg) => {
            let parts = pg.0;
            let groups = pg.1;
            if parts.len() == 0 {
                Err(WordError::EmptyWord)
            } else {
                let bound_left = parts[0] != WordPart::AnyWildcard;
                if !bound_left && parts.len() == 1 {
                    Err(WordError::WildcardOnly)
                } else {
                    let parts1 = if bound_left {
                        parts
                    } else {
                        parts.drop_first()
                    };
                    let bound_right = parts1[parts1.len() - 1] != WordPart::AnyWildcard;
                    if !bound_right && parts1.len() == 1 {
                        Err(WordError::WildcardOnly)
                    } else {
                        let parts2 = if bound_right {
                            parts1
                        } else {
                            parts1.drop_last()
                        };
                        Ok(WordModel { parts: parts2, groups, bound_left, bound_right })
                    }
                }
            }
        },
    }
}

/// Every class range of `parts` lies inside `[gpos, gpos + glen)` and is
/// at least two characters wide.
pub open spec fn parts_ranges_ok(parts: Seq<WordPart>, gpos: int, glen: int) -> bool {
    forall|k: int|
        0 <= k < parts.len() ==> match #[trigger] parts[k] {
            WordPart::Group(a, b) => gpos <= a && a + 2 <= b && b <= gpos + glen,
            _ => true,
        }
}

proof fn lemma_ranges_prepend(p: WordPart, parts: Seq<WordPart>, gpos: int, glen: int)
    requires
        match p {
            WordPart::Group(a, b) => gpos <= a && a + 2 <= b && b <= gpos + glen,
            _ => true,
        },
        parts_ranges_ok(parts, gpos, glen),
    ensures
        parts_ranges_ok(seq![p] + parts, gpos, glen),
{
    let all = seq![p] + parts;
    assert forall|k: int| 0 <= k < all.len() implies (match #[trigger] all[k] {
        WordPart::Group(a, b) => gpos <= a && a + 2 <= b && b <= gpos + glen,
        _ => true,
    }) by {
        if k == 0 {
            assert(all[0] == p);
        } else {
            assert(all[k] == parts[k - 1]);
        }
    }
}

proof fn lemma_ranges_widen(parts: Seq<WordPart>, gpos: int, glen: int, gpos2: int, glen2: int)
    requires
        parts_ranges_ok(parts, gpos2, glen2),
        gpos <= gpos2,
        gpos2 + glen2 <= gpos + glen,
    ensures
        parts_ranges_ok(parts, gpos, glen),
{
    assert forall|k: int| 0 <= k < parts.len() implies (match #[trigger] parts[k] {
        WordPart::Group(a, b) => gpos <= a && a + 2 <= b && b <= gpos + glen,
        _ => true,
    }) by {
        assert(match parts[k] {
            WordPart::Group(a, b) => gpos2 <= a && a + 2 <= b && b <= gpos2 + glen2,
            _ => true,
        });
    }
}

/// Every class range of a successful parse at `gpos` lies in
/// `[gpos, gpos + contributed)`.
proof fn lemma_parse_parts_wf(s: Seq<char>, gpos: int)
    requires
        0 <= gpos,
        gpos + s.len() <= usize::MAX,
    ensures
        parse_parts(s, gpos) is Ok ==> parts_ranges_ok(
            parse_parts(s, gpos)->Ok_0.0,
            gpos,
            parse_parts(s, gpos)->Ok_0.1.len() as int,
        ),
    decreases s.len(),
{
    if s.len() == 0 {
    } else if s[0] == '*' {
        if s.len() >= 2 && s[1] == '*' {
            lemma_parse_parts_wf(s.skip(2), gpos);
            if parse_parts(s.skip(2), gpos) is Ok {
                let pr = parse_parts(s.skip(2), gpos)->Ok_0;
                lemma_ranges_prepend(WordPart::AnyWildcard, pr.0, gpos, pr.1.len() as int);
            }
        } else {
            lemma_parse_parts_wf(s.skip(1), gpos);
            if parse_parts(s.skip(1), gpos) is Ok {
                let pr = parse_parts(s.skip(1), gpos)->Ok_0;
                lemma_ranges_prepend(WordPart::SingleWildcard, pr.0, gpos, pr.1.len() as int);
            }
        }
    } else if s[0] == '[' {
        match parse_group(s.skip(1), Seq::empty()) {
            Ok(g_rest) => {
                let g = g_rest.0;
                let rest = g_rest.1;
                lemma_parse_group_len(s.skip(1), Seq::empty());
                lemma_parse_group_consumed(s.skip(1), Seq::empty());
                if g.len() == 0 {
                    lemma_parse_parts_wf(rest, gpos);
                } else if g.len() == 1 {
                    lemma_parse_parts_wf(rest, gpos);
                    if parse_parts(rest, gpos) is Ok {
                        let pr = parse_parts(rest, gpos)->Ok_0;
                        lemma_ranges_prepend(WordPart::Single(g[0]), pr.0, gpos, pr.1.len() as int);
                    }
                } else {
                    lemma_parse_parts_wf(rest, gpos + g.len());
                    if parse_parts(rest, gpos + g.len()) is Ok {
                        let pr = parse_parts(rest, gpos + g.len())->Ok_0;
                        let glen = g.len() + pr.1.len();
                        assert(gpos as usize as int == gpos);
                        assert((gpos + g.len()) as usize as int == gpos + g.len());
                        lemma_ranges_widen(
                            pr.0,
                            gpos,
                            glen as int,
                            gpos + g.len(),
                            pr.1.len() as int,
                        );
                        lemma_ranges_prepend(
                            WordPart::Group(gpos as usize, (gpos + g.len()) as usize),
                            pr.0,
                            gpos,
                            glen as int,
                        );
                        assert(parse_parts(s, gpos)->Ok_0.1.len() == glen);
                        assert(parse_parts(s, gpos)->Ok_0.0 == seq![
                            WordPart::Group(gpos as usize, (gpos + g.len()) as usize),
                        ] + pr.0);
                    }
                }
            },
            Err(_) => {},
        }
    } else if s[0] == '\\' {
        if s.len() > 1 {
            lemma_parse_parts_wf(s.skip(2), gpos);
            if parse_parts(s.skip(2), gpos) is Ok {
                let pr = parse_parts(s.skip(2), gpos)->Ok_0;
                lemma_ranges_prepend(WordPart::Single(s[1]), pr.0, gpos, pr.1.len() as int);
            }
        }
    } else {
        lemma_parse_parts_wf(s.skip(1), gpos);
        if parse_parts(s.skip(1), gpos) is Ok {
            let pr = parse_parts(s.skip(1), gpos)->Ok_0;
            lemma_ranges_prepend(WordPart::Single(s[0]), pr.0, gpos, pr.1.len() as int);
        }
    }
}

/// A successfully recorded occurrence of a word in a sentence.
pub struct WordMatch {
    /// The index of the first matched character.
    pub start: usize,
    /// One past the index of the last matched character.
    pub end: usize,
}

impl WordMatch {
    pub fn get_start(&self) -> (r: u32)
        requires
            self.start <= u32::MAX,
        ensures
            r == self.start,
    {
        self.start as u32
    }

    pub fn get_end(&self) -> (r: u32)
        requires
            self.end <= u32::MAX,
        ensures
            r == self.end,
    {
        self.end as u32
    }
}

/// A compiled word pattern: an ordered part sequence, the class buffer its
/// groups refer to, and the two boundary-binding flags. Immutable after
/// construction; matching keeps all of its state local to the call.
pub struct Word {
    parts: Vec<WordPart>,
    group_chars: Vec<char>,
    /// Whether a match must begin at a word-start boundary.
    pub bound_left: bool,
    /// Whether a match must end at a word-end boundary.
    pub bound_right: bool,
}

impl View for Word {
    type V = WordModel;

    closed spec fn view(&self) -> WordModel {
        WordModel {
            parts: self.parts@,
            groups: self.group_chars@,
            bound_left: self.bound_left,
            bound_right: self.bound_right,
        }
    }
}

/// Whether a part is the unanchored wildcard.
fn is_any_wildcard(p: WordPart) -> (r: bool)
    ensures
        r == (p == WordPart::AnyWildcard),
{
    matches!(p, WordPart::AnyWildcard)
}

/// Whether `chars` contains `c`.
fn contains_char_vec(chars: &Vec<char>, c: char) -> (r: bool)
    ensures
        r == chars@.contains(c),
{
    let mut i: usize = 0;
    while i < chars.len()
        invariant
            i <= chars@.len(),
            forall|j: int| 0 <= j < i ==> chars@[j] != c,
        decreases chars@.len() - i,
    {
        if chars[i] == c {
            return true;
        }
        i = i + 1;
    }
    false
}

/// Parses a character group from position `j` (just past the opening
/// bracket), exactly as [`parse_group`] describes; on success returns the
/// group's characters and the position just past the closing bracket.
fn parse_group_rec(chars: &Vec<char>, j: usize, acc: Vec<char>) -> (r: Result<
    (Vec<char>, usize),
    WordError,
>)
    requires
        j <= chars@.len(),
    ensures
        match r {
            Ok(g_nj) => j < g_nj.1 <= chars@.len() && parse_group(chars@.skip(j as int), acc@)
                == Ok::<(Seq<char>, Seq<char>), WordError>((g_nj.0@, chars@.skip(g_nj.1 as int))),
            Err(e) => parse_group(chars@.skip(j as int), acc@) == Err::<
                (Seq<char>, Seq<char>),
                WordError,
            >(e),
        },
    decreases chars@.len() - j,
{
    let ghost s0 = chars@.skip(j as int);
    if j >= chars.len() {
        proof {
            assert(s0.len() == 0);
        }
        return Err(WordError::UnterminatedGroup);
    }
    let c = chars[j];
    proof {
        assert(s0[0] == chars@[j as int]);
    }
    if c == ']' {
        proof {
            assert(s0.skip(1) =~= chars@.skip(j as int + 1));
        }
        Ok((acc, j + 1))
    } else if c == '\\' {
        if j + 1 >= chars.len() {
            proof {
                assert(s0.len() == 1);
            }
            return Err(WordError::UnterminatedGroup);
        }
        proof {
            assert(s0[1] == chars@[j as int + 1]);
            assert(s0.skip(2) =~= chars@.skip(j as int + 2));
        }
        let c3 = chars[j + 1];
        let mut acc2 = acc;
        if !contains_char_vec(&acc2, c3) {
            acc2.push(c3);
        }
        parse_group_rec(chars, j + 2, acc2)
    } else {
        proof {
            assert(s0.skip(1) =~= chars@.skip(j as int + 1));
        }
        let mut acc2 = acc;
        if !contains_char_vec(&acc2, c) {
            acc2.push(c);
        }
        parse_group_rec(chars, j + 1, acc2)
    }
}

/// Puts one parsed part in front of the rest of a parse, passing an error
/// through.
fn prepend_part(r: Result<(Vec<WordPart>, Vec<char>), WordError>, p: WordPart) -> (out: Result<
    (Vec<WordPart>, Vec<char>),
    WordError,
>)
    ensures
        match out {
            Ok(vg) => r is Ok && vg.0@ == seq![p] + r->Ok_0.0@ && vg.1@ == r->Ok_0.1@,
            Err(e) => r == Err::<(Vec<WordPart>, Vec<char>), WordError>(e),
        },
{
    match r {
        Ok((rest, gs)) => {
            let ghost before = rest@;
            let mut v = rest;
            v.insert(0, p);
            proof {
                assert(v@ =~= seq![p] + before);
            }
            Ok((v, gs))
        },
        Err(e) => Err(e),
    }
}

/// Appends the characters of `b` to `a`.
fn append_chars(a: &mut Vec<char>, b: &Vec<char>)
    ensures
        final(a)@ == old(a)@ + b@,
{
    let ghost a0 = a@;
    let mut x: usize = 0;
    while x < b.len()
        invariant
            x <= b@.len(),
            a@ == a0 + b@.take(x as int),
        decreases b@.len() - x,
    {
        a.push(b[x]);
        proof {
            assert(a@ =~= a0 + b@.take(x as int + 1));
        }
        x = x + 1;
    }
    proof {
        assert(b@.take(b@.len() as int) =~= b@);
    }
}

/// Parses the pattern from position `i` into its raw part sequence and the
/// class characters it contributes, with class ranges starting at `gpos`,
/// exactly as [`parse_parts`] describes.
fn parse_rec(chars: &Vec<char>, i: usize, gpos: usize) -> (r: Result<
    (Vec<WordPart>, Vec<char>),
    WordError,
>)
    requires
        i <= chars@.len(),
        gpos + chars@.len() - i <= usize::MAX,
    ensures
        match r {
            Ok(vg) => parse_parts(chars@.skip(i as int), gpos as int) == Ok::<
                (Seq<WordPart>, Seq<char>),
                WordError,
            >((vg.0@, vg.1@)),
            Err(e) => parse_parts(chars@.skip(i as int), gpos as int) == Err::<
                (Seq<WordPart>, Seq<char>),
                WordError,
            >(e),
        },
    decreases chars@.len() - i,
{
    let ghost s0 = chars@.skip(i as int);
    if i >= chars.len() {
        let v: Vec<WordPart> = Vec::new();
        let gs: Vec<char> = Vec::new();
        proof {
            assert(s0.len() == 0);
            assert(v@ =~= Seq::<WordPart>::empty());
            assert(gs@ =~= Seq::<char>::empty());
        }
        return Ok((v, gs));
    }
    let c = chars[i];
    proof {
        assert(s0[0] == chars@[i as int]);
        if i as int + 1 < chars@.len() {
            assert(s0[1] == chars@[i as int + 1]);
        }
    }
    if c == '*' {
        if i + 1 < chars.len() && chars[i + 1] == '*' {
            proof {
                assert(s0.skip(2) =~= chars@.skip(i as int + 2));
            }
            prepend_part(parse_rec(chars, i + 2, gpos), WordPart::AnyWildcard)
        } else {
            proof {
                assert(s0.skip(1) =~= chars@.skip(i as int + 1));
            }
            prepend_part(parse_rec(chars, i + 1, gpos), WordPart::SingleWildcard)
        }
    } else if c == '[' {
        proof {
            assert(s0.skip(1) =~= chars@.skip(i as int + 1));
        }
        let empty_acc: Vec<char> = Vec::new();
        proof {
            assert(empty_acc@ =~= Seq::<char>::empty());
            lemma_parse_group_consumed(chars@.skip(i as int + 1), Seq::empty());
        }
        match parse_group_rec(chars, i + 1, empty_acc) {
            Err(e) => Err(e),
            Ok((group, nj)) => {
                let ghost g = group@;
                if group.len() == 0 {
                    parse_rec(chars, nj, gpos)
                } else if group.len() == 1 {
                    let gc = group[0];
                    prepend_part(parse_rec(chars, nj, gpos), WordPart::Single(gc))
                } else {
                    let a = gpos;
                    let b = gpos + group.len();
                    match parse_rec(chars, nj, b) {
                        Err(e) => Err(e),
                        Ok((pv, gs2)) => {
                            let ghost pvg = pv@;
                            let ghost gs2g = gs2@;
                            let mut parts = pv;
                            parts.insert(0, WordPart::Group(a, b));
                            let mut gs = group;
                            append_chars(&mut gs, &gs2);
                            proof {
                                assert(parts@ =~= seq![WordPart::Group(a, b)] + pvg);
                                assert(gs@ == g + gs2g);
                            }
                            Ok((parts, gs))
                        },
                    }
                }
            },
        }
    } else if c == '\\' {
        if i + 1 >= chars.len() {
            proof {
                assert(s0.len() == 1);
            }
            return Err(WordError::TrailingEscape);
        }
        proof {
            assert(s0.skip(2) =~= chars@.skip(i as int + 2));
        }
        let c2 = chars[i + 1];
        prepend_part(parse_rec(chars, i + 2, gpos), WordPart::Single(c2))
    } else {
        proof {
            assert(s0.skip(1) =~= chars@.skip(i as int + 1));
        }
        prepend_part(parse_rec(chars, i + 1, gpos), WordPart::Single(c))
    }
}

impl Word {
    /// The compiled word is well-formed; see [`word_wf`].
    pub open spec fn wf(self) -> bool {
        word_wf(self@)
    }

    /// Compiles a pattern: the pattern is normalized exactly as sentence
    /// text is, then parsed. Succeeds or fails exactly as [`compile_spec`]
    /// says of the normalized pattern.
    pub fn new(word: String) -> (r: Result<Word, WordError>)
        ensures
            match r {
                Ok(w) => compile_spec(normalize_spec(word@)) == Ok::<WordModel, WordError>(w@)
                    && w.wf(),
                Err(e) => compile_spec(normalize_spec(word@)) == Err::<WordModel, WordError>(e),
            },
    {
        let normalized = normalize(word.as_str());
        let chars = chars_of(normalized.as_str());
        Word::parse_pattern(&chars)
    }

    /// Compiles an already-normalized pattern given as characters.
    /// Succeeds or fails exactly as [`compile_spec`] says.
    pub fn parse_pattern(chars: &Vec<char>) -> (r: Result<Word, WordError>)
        ensures
            match r {
                Ok(w) => compile_spec(chars@) == Ok::<WordModel, WordError>(w@) && w.wf(),
                Err(e) => compile_spec(chars@) == Err::<WordModel, WordError>(e),
            },
    {
        let n = chars.len();
        proof {
            assert(chars@.len() == n);
        }
        let parsed = parse_rec(chars, 0, 0);
        proof {
            assert(chars@.skip(0) =~= chars@);
            assert(chars@.len() == n);
            lemma_parse_parts_wf(chars@, 0);
        }
        let (parts, groups): (Vec<WordPart>, Vec<char>) = match parsed {
            Ok(vg) => vg,
            Err(e) => {
                return Err(e);
            },
        };
        let mut parts = parts;

        if parts.len() == 0 {
            return Err(WordError::EmptyWord);
        }
        let bound_left = !is_any_wildcard(parts[0]);
        if !bound_left {
            if parts.len() == 1 {
                return Err(WordError::WildcardOnly);
            }
            let ghost before = parts@;
            parts.remove(0);
            proof {
                assert(parts@ =~= before.drop_first());
            }
        }
        let bound_right = !is_any_wildcard(parts[parts.len() - 1]);
        if !bound_right {
            if parts.len() == 1 {
                return Err(WordError::WildcardOnly);
            }
            let ghost before = parts@;
            let _last = parts.pop();
            proof {
                assert(parts@ =~= before.drop_last());
            }
        }
        Ok(Word { parts, group_chars: groups, bound_left, bound_right })
    }

    /// Scans a snapshot of the sentence's spans for occurrences of this
    /// word, marking each one it records, and returns whether at least one
    /// match was recorded; see [`matches_model`]. Marked text is excluded
    /// from the spans, so a region never matches twice.
    pub fn matches(&self, sentence: &mut Sentence) -> (r: bool)
        requires
            old(sentence).wf(),
            self.wf(),
        ensures
            final(sentence).wf(),
            (r, final(sentence)@) == matches_model(self@, old(sentence)@),
    {
        let snapshot = copy_spans(&sentence.spans);
        run_spans(
            &self.parts,
            &self.group_chars,
            self.bound_left,
            self.bound_right,
            sentence,
            &snapshot,
            0,
            false,
        )
    }

    /// The canonical re-rendering of the compiled pattern: unbound sides
    /// re-emit `**`, and literal characters that would read as syntax are
    /// escaped.
    pub fn to_string(&self) -> (r: String)
        requires
            self.wf(),
        ensures
            r@ == render_word(self@),
    {
        let mut out: Vec<char> = Vec::new();
        if !self.bound_left {
            out.push('*');
            out.push('*');
        }
        let ghost pre = out@;
        render_parts_rec(&self.parts, &self.group_chars, 0, &mut out);
        if !self.bound_right {
            out.push('*');
            out.push('*');
        }
        proof {
            assert(out@ =~= render_word(self@));
        }
        string_from_chars(&out)
    }

    /// Scans the sentence for occurrences of this word, as [`matches`]
    /// does; the host-facing name of the same operation.
    pub fn js_matches(&self, sentence: &mut Sentence) -> (r: bool)
        requires
            old(sentence).wf(),
            self.wf(),
        ensures
            final(sentence).wf(),
            (r, final(sentence)@) == matches_model(self@, old(sentence)@),
    {
        self.matches(sentence)
    }

    /// The number of compiled parts.
    pub fn js_length(&self) -> (r: u32)
        requires
            self@.parts.len() <= u32::MAX,
        ensures
            r == self@.parts.len(),
    {
        self.parts.len() as u32
    }
}


/// Whether a candidate start position is admissible: at a word start for
/// boundary-bound scans, and at any unmarked content character otherwise.
pub open spec fn candidate_ok(need_start: bool, b: Boundary) -> bool {
    if need_start {
        b.spec_is_start()
    } else {
        b != Boundary::NoContent && b != Boundary::Marked
    }
}

/// One left-to-right matching attempt from position `j` to `end`:
/// `NoContent` characters are skipped without consuming a part; a matching
/// part consumes the character (the last part keeps re-matching greedily,
/// recording one past each position where it may end); a failing part is
/// forgiven when the previous part still matches the character (a one-step
/// wildcard retraction), and otherwise the attempt stops. Returns one past
/// the last recorded match end, if any. With `require_end`, an end is
/// recorded only at a word-end boundary.
pub open spec fn scan_fwd_spec(
    parts: Seq<WordPart>,
    groups: Seq<char>,
    m: SentenceModel,
    j: int,
    end: int,
    wi: int,
    prev: Option<char>,
    me: Option<int>,
    require_end: bool,
) -> Option<int>
    decreases end - j,
{
    if j >= end {
        me
    } else {
        let c = m.contents[j];
        let b = m.boundaries[j];
        if b == Boundary::NoContent {
            scan_fwd_spec(parts, groups, m, j + 1, end, wi, prev, me, require_end)
        } else if part_matches(parts[wi], groups, c, prev) {
            let me2 = if wi == parts.len() - 1 {
                if !require_end || b.spec_is_end() {
                    Some(j + 1)
                } else {
                    me
                }
            } else {
                me
            };
            let wi2 = if wi < parts.len() - 1 {
                wi + 1
            } else {
                wi
            };
            scan_fwd_spec(parts, groups, m, j + 1, end, wi2, Some(c), me2, require_end)
        } else if wi > 0 && part_matches(parts[wi - 1], groups, c, prev) {
            scan_fwd_spec(parts, groups, m, j + 1, end, wi, prev, me, require_end)
        } else {
            me
        }
    }
}

/// One right-to-left matching attempt from position `j` down to `start`,
/// consuming parts from the last to the first; records the position where
/// the first part matched. The mirror image of [`scan_fwd_spec`].
pub open spec fn scan_rev_spec(
    parts: Seq<WordPart>,
    groups: Seq<char>,
    m: SentenceModel,
    j: int,
    start: int,
    wi: int,
    prev: Option<char>,
    ms: Option<int>,
) -> Option<int>
    decreases j - start + 1,
{
    if j < start {
        ms
    } else {
        let c = m.contents[j];
        let b = m.boundaries[j];
        if b == Boundary::NoContent {
            scan_rev_spec(parts, groups, m, j - 1, start, wi, prev, ms)
        } else if part_matches(parts[wi], groups, c, prev) {
            let ms2 = if wi == 0 {
                Some(j)
            } else {
                ms
            };
            let wi2 = if wi > 0 {
                wi - 1
            } else {
                wi
            };
            scan_rev_spec(parts, groups, m, j - 1, start, wi2, Some(c), ms2)
        } else if wi < parts.len() - 1 && part_matches(parts[wi + 1], groups, c, prev) {
            scan_rev_spec(parts, groups, m, j - 1, start, wi, prev, ms)
        } else {
            ms
        }
    }
}

/// Scans the span `[i, end)` left to right: each admissible candidate
/// start gets a fresh matching attempt; a recorded match is marked on the
/// sentence at once, and the scan resumes past it.
pub open spec fn run_fwd_spec(
    parts: Seq<WordPart>,
    groups: Seq<char>,
    m: SentenceModel,
    i: int,
    end: int,
    require_end: bool,
    need_start: bool,
    matched: bool,
) -> (bool, SentenceModel)
    decreases end - i,
{
    if i >= end {
        (matched, m)
    } else if !candidate_ok(need_start, m.boundaries[i]) {
        run_fwd_spec(parts, groups, m, i + 1, end, require_end, need_start, matched)
    } else {
        match scan_fwd_spec(parts, groups, m, i, end, 0, None, None, require_end) {
            Some(me) => if i < me && me <= end {
                run_fwd_spec(
                    parts,
                    groups,
                    mark_model(m, i, me),
                    me,
                    end,
                    require_end,
                    need_start,
                    true,
                )
            } else {
                run_fwd_spec(parts, groups, m, i + 1, end, require_end, need_start, matched)
            },
            None => run_fwd_spec(parts, groups, m, i + 1, end, require_end, need_start, matched),
        }
    }
}

/// Scans the span `[start, i)` right to left: each word-end boundary gets
/// a fresh backward matching attempt; a recorded match is marked on the
/// sentence at once, and the scan resumes below it.
pub open spec fn run_rev_spec(
    parts: Seq<WordPart>,
    groups: Seq<char>,
    m: SentenceModel,
    start: int,
    i: int,
    matched: bool,
) -> (bool, SentenceModel)
    decreases i - start,
{
    if i <= start {
        (matched, m)
    } else {
        let pos = i - 1;
        if !m.boundaries[pos].spec_is_end() {
            run_rev_spec(parts, groups, m, start, pos, matched)
        } else {
            match scan_rev_spec(parts, groups, m, pos, start, parts.len() - 1, None, None) {
                Some(ms) => if start <= ms && ms <= pos {
                    run_rev_spec(parts, groups, mark_model(m, ms, pos + 1), start, ms, true)
                } else {
                    run_rev_spec(parts, groups, m, start, pos, matched)
                },
                None => run_rev_spec(parts, groups, m, start, pos, matched),
            }
        }
    }
}

/// Runs one word over one span, in the direction its binding flags call
/// for.
pub open spec fn run_span_spec(
    w: WordModel,
    m: SentenceModel,
    s: int,
    e: int,
) -> (bool, SentenceModel) {
    if w.bound_left {
        run_fwd_spec(w.parts, w.groups, m, s, e, w.bound_right, true, false)
    } else if w.bound_right {
        run_rev_spec(w.parts, w.groups, m, s, e, false)
    } else {
        run_fwd_spec(w.parts, w.groups, m, s, e, false, false, false)
    }
}

/// Runs one word over a snapshot of spans, skipping spans shorter than the
/// part count, marking every recorded match, and reporting whether any
/// match was recorded.
pub open spec fn run_spans_spec(
    w: WordModel,
    m: SentenceModel,
    spans: Seq<(usize, usize)>,
    k: int,
    matched: bool,
) -> (bool, SentenceModel)
    decreases spans.len() - k,
{
    if k < 0 || k >= spans.len() {
        (matched, m)
    } else {
        let s = spans[k].0 as int;
        let e = spans[k].1 as int;
        if w.parts.len() > e - s {
            run_spans_spec(w, m, spans, k + 1, matched)
        } else {
            let rm = run_span_spec(w, m, s, e);
            run_spans_spec(w, rm.1, spans, k + 1, matched || rm.0)
        }
    }
}

/// What one `matches` call returns and leaves behind: the word is run over
/// a snapshot of the sentence's spans taken before any marking.
pub open spec fn matches_model(w: WordModel, m: SentenceModel) -> (bool, SentenceModel) {
    run_spans_spec(w, m, m.spans, 0, false)
}

/// The word's class ranges all lie inside its class buffer.
pub open spec fn scan_parts_ok(parts: Seq<WordPart>, groups: Seq<char>) -> bool {
    forall|k: int| 0 <= k < parts.len() ==> part_wf(#[trigger] parts[k], groups)
}


/// Marking never changes the characters.
proof fn lemma_mark_model_contents(m: SentenceModel, start: int, end: int)
    ensures
        mark_model(m, start, end).contents == m.contents,
{
    let k = crate::sentence::find_span(m.spans, start, end);
    if k >= 0 {
    }
}

/// The forward span scan never changes the characters.
proof fn lemma_run_fwd_contents(
    parts: Seq<WordPart>,
    groups: Seq<char>,
    m: SentenceModel,
    i: int,
    end: int,
    require_end: bool,
    need_start: bool,
    matched: bool,
)
    ensures
        run_fwd_spec(parts, groups, m, i, end, require_end, need_start, matched).1.contents
            == m.contents,
    decreases end - i,
{
    if i >= end {
    } else if !candidate_ok(need_start, m.boundaries[i]) {
        lemma_run_fwd_contents(parts, groups, m, i + 1, end, require_end, need_start, matched);
    } else {
        match scan_fwd_spec(parts, groups, m, i, end, 0, None, None, require_end) {
            Some(me) => {
                if i < me && me <= end {
                    lemma_mark_model_contents(m, i, me);
                    lemma_run_fwd_contents(
                        parts,
                        groups,
                        mark_model(m, i, me),
                        me,
                        end,
                        require_end,
                        need_start,
                        true,
                    );
                } else {
                    lemma_run_fwd_contents(
                        parts,
                        groups,
                        m,
                        i + 1,
                        end,
                        require_end,
                        need_start,
                        matched,
                    );
                }
            },
            None => {
                lemma_run_fwd_contents(
                    parts,
                    groups,
                    m,
                    i + 1,
                    end,
                    require_end,
                    need_start,
                    matched,
                );
            },
        }
    }
}

/// The backward span scan never changes the characters.
proof fn lemma_run_rev_contents(
    parts: Seq<WordPart>,
    groups: Seq<char>,
    m: SentenceModel,
    start: int,
    i: int,
    matched: bool,
)
    ensures
        run_rev_spec(parts, groups, m, start, i, matched).1.contents == m.contents,
    decreases i - start,
{
    if i <= start {
    } else {
        let pos = i - 1;
        if !m.boundaries[pos].spec_is_end() {
            lemma_run_rev_contents(parts, groups, m, start, pos, matched);
        } else {
            match scan_rev_spec(parts, groups, m, pos, start, parts.len() - 1, None, None) {
                Some(ms) => {
                    if start <= ms && ms <= pos {
                        lemma_mark_model_contents(m, ms, pos + 1);
                        lemma_run_rev_contents(
                            parts,
                            groups,
                            mark_model(m, ms, pos + 1),
                            start,
                            ms,
                            true,
                        );
                    } else {
                        lemma_run_rev_contents(parts, groups, m, start, pos, matched);
                    }
                },
                None => {
                    lemma_run_rev_contents(parts, groups, m, start, pos, matched);
                },
            }
        }
    }
}

/// Executes one forward matching attempt; see [`scan_fwd_spec`].
fn scan_fwd(
    parts: &Vec<WordPart>,
    group_chars: &Vec<char>,
    sentence: &Sentence,
    j: usize,
    end: usize,
    wi: usize,
    prev: Option<char>,
    me: Option<usize>,
    require_end: bool,
) -> (r: Option<usize>)
    requires
        scan_parts_ok(parts@, group_chars@),
        parts@.len() >= 1,
        wi < parts@.len(),
        j <= end,
        end <= sentence@.contents.len(),
        sentence@.boundaries.len() == sentence@.contents.len(),
    ensures
        (match r {
            Some(x) => Some(x as int),
            None => None::<int>,
        }) == scan_fwd_spec(
            parts@,
            group_chars@,
            sentence@,
            j as int,
            end as int,
            wi as int,
            prev,
            match me {
                Some(x) => Some(x as int),
                None => None::<int>,
            },
            require_end,
        ),
    decreases end - j,
{
    if j >= end {
        return me;
    }
    let c = sentence.contents[j];
    let b = sentence.boundaries[j];
    if b == Boundary::NoContent {
        scan_fwd(parts, group_chars, sentence, j + 1, end, wi, prev, me, require_end)
    } else if parts[wi].matches(group_chars, c, prev) {
        let last = wi == parts.len() - 1;
        let me2 = if last {
            if !require_end || b.is_end() {
                Some(j + 1)
            } else {
                me
            }
        } else {
            me
        };
        let wi2 = if !last {
            wi + 1
        } else {
            wi
        };
        scan_fwd(parts, group_chars, sentence, j + 1, end, wi2, Some(c), me2, require_end)
    } else if wi > 0 && parts[wi - 1].matches(group_chars, c, prev) {
        scan_fwd(parts, group_chars, sentence, j + 1, end, wi, prev, me, require_end)
    } else {
        me
    }
}

/// Executes one backward matching attempt; see [`scan_rev_spec`].
fn scan_rev(
    parts: &Vec<WordPart>,
    group_chars: &Vec<char>,
    sentence: &Sentence,
    j: usize,
    start: usize,
    wi: usize,
    prev: Option<char>,
    ms: Option<usize>,
) -> (r: Option<usize>)
    requires
        scan_parts_ok(parts@, group_chars@),
        parts@.len() >= 1,
        wi < parts@.len(),
        start <= j,
        j < sentence@.contents.len(),
        sentence@.boundaries.len() == sentence@.contents.len(),
    ensures
        (match r {
            Some(x) => Some(x as int),
            None => None::<int>,
        }) == scan_rev_spec(
            parts@,
            group_chars@,
            sentence@,
            j as int,
            start as int,
            wi as int,
            prev,
            match ms {
                Some(x) => Some(x as int),
                None => None::<int>,
            },
        ),
    decreases j - start + 1,
{
    let c = sentence.contents[j];
    let b = sentence.boundaries[j];
    if b == Boundary::NoContent {
        if j == start {
            proof {
                assert(scan_rev_spec(
                    parts@,
                    group_chars@,
                    sentence@,
                    j as int - 1,
                    start as int,
                    wi as int,
                    prev,
                    match ms {
                        Some(x) => Some(x as int),
                        None => None::<int>,
                    },
                ) == (match ms {
                    Some(x) => Some(x as int),
                    None => None::<int>,
                }));
            }
            return ms;
        }
        scan_rev(parts, group_chars, sentence, j - 1, start, wi, prev, ms)
    } else if parts[wi].matches(group_chars, c, prev) {
        let first = wi == 0;
        let ms2 = if first {
            Some(j)
        } else {
            ms
        };
        let wi2 = if !first {
            wi - 1
        } else {
            wi
        };
        if j == start {
            proof {
                assert(scan_rev_spec(
                    parts@,
                    group_chars@,
                    sentence@,
                    j as int - 1,
                    start as int,
                    wi2 as int,
                    Some(c),
                    match ms2 {
                        Some(x) => Some(x as int),
                        None => None::<int>,
                    },
                ) == (match ms2 {
                    Some(x) => Some(x as int),
                    None => None::<int>,
                }));
            }
            return ms2;
        }
        scan_rev(parts, group_chars, sentence, j - 1, start, wi2, Some(c), ms2)
    } else if wi < parts.len() - 1 && parts[wi + 1].matches(group_chars, c, prev) {
        if j == start {
            proof {
                assert(scan_rev_spec(
                    parts@,
                    group_chars@,
                    sentence@,
                    j as int - 1,
                    start as int,
                    wi as int,
                    prev,
                    match ms {
                        Some(x) => Some(x as int),
                        None => None::<int>,
                    },
                ) == (match ms {
                    Some(x) => Some(x as int),
                    None => None::<int>,
                }));
            }
            return ms;
        }
        scan_rev(parts, group_chars, sentence, j - 1, start, wi, prev, ms)
    } else {
        ms
    }
}

/// Executes the forward span scan; see [`run_fwd_spec`].
#[verifier::rlimit(100)]
fn run_fwd(
    parts: &Vec<WordPart>,
    group_chars: &Vec<char>,
    sentence: &mut Sentence,
    i: usize,
    end: usize,
    require_end: bool,
    need_start: bool,
    matched: bool,
) -> (r: bool)
    requires
        old(sentence).wf(),
        scan_parts_ok(parts@, group_chars@),
        parts@.len() >= 1,
        i <= end,
        end <= old(sentence)@.contents.len(),
    ensures
        final(sentence).wf(),
        (r, final(sentence)@) == run_fwd_spec(
            parts@,
            group_chars@,
            old(sentence)@,
            i as int,
            end as int,
            require_end,
            need_start,
            matched,
        ),
    decreases end - i,
{
    if i >= end {
        return matched;
    }
    let b = sentence.boundaries[i];
    let ok = if need_start {
        b.is_start()
    } else {
        !(b == Boundary::NoContent || b == Boundary::Marked)
    };
    if !ok {
        return run_fwd(parts, group_chars, sentence, i + 1, end, require_end, need_start, matched);
    }
    match scan_fwd(parts, group_chars, sentence, i, end, 0, None, None, require_end) {
        Some(me) => {
            if i < me && me <= end {
                let _found = sentence.mark(i, me);
                run_fwd(parts, group_chars, sentence, me, end, require_end, need_start, true)
            } else {
                run_fwd(parts, group_chars, sentence, i + 1, end, require_end, need_start, matched)
            }
        },
        None => run_fwd(parts, group_chars, sentence, i + 1, end, require_end, need_start, matched),
    }
}

/// Executes the backward span scan; see [`run_rev_spec`].
#[verifier::rlimit(100)]
fn run_rev(
    parts: &Vec<WordPart>,
    group_chars: &Vec<char>,
    sentence: &mut Sentence,
    start: usize,
    i: usize,
    matched: bool,
) -> (r: bool)
    requires
        old(sentence).wf(),
        scan_parts_ok(parts@, group_chars@),
        parts@.len() >= 1,
        start <= i,
        i <= old(sentence)@.contents.len(),
    ensures
        final(sentence).wf(),
        (r, final(sentence)@) == run_rev_spec(
            parts@,
            group_chars@,
            old(sentence)@,
            start as int,
            i as int,
            matched,
        ),
    decreases i - start,
{
    if i <= start {
        return matched;
    }
    let pos = i - 1;
    if !sentence.boundaries[pos].is_end() {
        return run_rev(parts, group_chars, sentence, start, pos, matched);
    }
    match scan_rev(parts, group_chars, sentence, pos, start, parts.len() - 1, None, None) {
        Some(ms) => {
            if start <= ms && ms <= pos {
                let _found = sentence.mark(ms, pos + 1);
                run_rev(parts, group_chars, sentence, start, ms, true)
            } else {
                run_rev(parts, group_chars, sentence, start, pos, matched)
            }
        },
        None => run_rev(parts, group_chars, sentence, start, pos, matched),
    }
}

/// Executes the span-list scan; see [`run_spans_spec`].
fn run_spans(
    parts: &Vec<WordPart>,
    group_chars: &Vec<char>,
    bound_left: bool,
    bound_right: bool,
    sentence: &mut Sentence,
    snapshot: &Vec<(usize, usize)>,
    k: usize,
    matched: bool,
) -> (r: bool)
    requires
        old(sentence).wf(),
        scan_parts_ok(parts@, group_chars@),
        parts@.len() >= 1,
        k <= snapshot@.len(),
        forall|x: int|
            0 <= x < snapshot@.len() ==> (#[trigger] snapshot@[x]).0 <= snapshot@[x].1
                && snapshot@[x].1 <= old(sentence)@.contents.len(),
    ensures
        final(sentence).wf(),
        final(sentence)@.contents == old(sentence)@.contents,
        ({
            let w = WordModel { parts: parts@, groups: group_chars@, bound_left, bound_right };
            (r, final(sentence)@) == run_spans_spec(w, old(sentence)@, snapshot@, k as int, matched)
        }),
    decreases snapshot@.len() - k,
{
    let ghost w = WordModel { parts: parts@, groups: group_chars@, bound_left, bound_right };
    if k >= snapshot.len() {
        return matched;
    }
    let (s, e) = snapshot[k];
    if parts.len() > e - s {
        return run_spans(
            parts,
            group_chars,
            bound_left,
            bound_right,
            sentence,
            snapshot,
            k + 1,
            matched,
        );
    }
    let r2 = if bound_left {
        run_fwd(parts, group_chars, sentence, s, e, bound_right, true, false)
    } else if bound_right {
        run_rev(parts, group_chars, sentence, s, e, false)
    } else {
        run_fwd(parts, group_chars, sentence, s, e, false, false, false)
    };
    proof {
        assert((r2, sentence@) == run_span_spec(w, old(sentence)@, s as int, e as int));
        if bound_left {
            lemma_run_fwd_contents(
                parts@,
                group_chars@,
                old(sentence)@,
                s as int,
                e as int,
                bound_right,
                true,
                false,
            );
        } else if bound_right {
            lemma_run_rev_contents(parts@, group_chars@, old(sentence)@, s as int, e as int, false);
        } else {
            lemma_run_fwd_contents(
                parts@,
                group_chars@,
                old(sentence)@,
                s as int,
                e as int,
                false,
                false,
                false,
            );
        }
    }
    run_spans(
        parts,
        group_chars,
        bound_left,
        bound_right,
        sentence,
        snapshot,
        k + 1,
        matched || r2,
    )
}

/// Copies the span list.
fn copy_spans(spans: &Vec<(usize, usize)>) -> (r: Vec<(usize, usize)>)
    ensures
        r@ == spans@,
{
    let mut out: Vec<(usize, usize)> = Vec::new();
    let mut i: usize = 0;
    while i < spans.len()
        invariant
            i <= spans@.len(),
            out@ == spans@.take(i as int),
        decreases spans@.len() - i,
    {
        out.push(spans[i]);
        proof {
            assert(out@ =~= spans@.take(i as int + 1));
        }
        i = i + 1;
    }
    proof {
        assert(spans@.take(spans@.len() as int) =~= spans@);
    }
    out
}


/// A span scan that starts with a recorded match reports one.
proof fn lemma_run_fwd_matched(
    parts: Seq<WordPart>,
    groups: Seq<char>,
    m: SentenceModel,
    i: int,
    end: int,
    require_end: bool,
    need_start: bool,
)
    ensures
        run_fwd_spec(parts, groups, m, i, end, require_end, need_start, true).0,
    decreases end - i,
{
    if i >= end {
    } else if !candidate_ok(need_start, m.boundaries[i]) {
        lemma_run_fwd_matched(parts, groups, m, i + 1, end, require_end, need_start);
    } else {
        match scan_fwd_spec(parts, groups, m, i, end, 0, None, None, require_end) {
            Some(me) => {
                if i < me && me <= end {
                    lemma_run_fwd_matched(
                        parts,
                        groups,
                        mark_model(m, i, me),
                        me,
                        end,
                        require_end,
                        need_start,
                    );
                } else {
                    lemma_run_fwd_matched(parts, groups, m, i + 1, end, require_end, need_start);
                }
            },
            None => {
                lemma_run_fwd_matched(parts, groups, m, i + 1, end, require_end, need_start);
            },
        }
    }
}

/// A forward span scan that reports no match leaves the sentence as it
/// found it.
proof fn lemma_run_fwd_false(
    parts: Seq<WordPart>,
    groups: Seq<char>,
    m: SentenceModel,
    i: int,
    end: int,
    require_end: bool,
    need_start: bool,
    matched: bool,
)
    ensures
        !run_fwd_spec(parts, groups, m, i, end, require_end, need_start, matched).0 ==> (
        run_fwd_spec(parts, groups, m, i, end, require_end, need_start, matched).1 == m
            && !matched),
    decreases end - i,
{
    if i >= end {
    } else if !candidate_ok(need_start, m.boundaries[i]) {
        lemma_run_fwd_false(parts, groups, m, i + 1, end, require_end, need_start, matched);
    } else {
        match scan_fwd_spec(parts, groups, m, i, end, 0, None, None, require_end) {
            Some(me) => {
                if i < me && me <= end {
                    lemma_run_fwd_matched(
                        parts,
                        groups,
                        mark_model(m, i, me),
                        me,
                        end,
                        require_end,
                        need_start,
                    );
                } else {
                    lemma_run_fwd_false(
                        parts,
                        groups,
                        m,
                        i + 1,
                        end,
                        require_end,
                        need_start,
                        matched,
                    );
                }
            },
            None => {
                lemma_run_fwd_false(parts, groups, m, i + 1, end, require_end, need_start, matched);
            },
        }
    }
}

/// A backward span scan that starts with a recorded match reports one.
proof fn lemma_run_rev_matched(
    parts: Seq<WordPart>,
    groups: Seq<char>,
    m: SentenceModel,
    start: int,
    i: int,
)
    ensures
        run_rev_spec(parts, groups, m, start, i, true).0,
    decreases i - start,
{
    if i <= start {
    } else {
        let pos = i - 1;
        if !m.boundaries[pos].spec_is_end() {
            lemma_run_rev_matched(parts, groups, m, start, pos);
        } else {
            match scan_rev_spec(parts, groups, m, pos, start, parts.len() - 1, None, None) {
                Some(ms) => {
                    if start <= ms && ms <= pos {
                        lemma_run_rev_matched(parts, groups, mark_model(m, ms, pos + 1), start, ms);
                    } else {
                        lemma_run_rev_matched(parts, groups, m, start, pos);
                    }
                },
                None => {
                    lemma_run_rev_matched(parts, groups, m, start, pos);
                },
            }
        }
    }
}

/// A backward span scan that reports no match leaves the sentence as it
/// found it.
proof fn lemma_run_rev_false(
    parts: Seq<WordPart>,
    groups: Seq<char>,
    m: SentenceModel,
    start: int,
    i: int,
    matched: bool,
)
    ensures
        !run_rev_spec(parts, groups, m, start, i, matched).0 ==> (run_rev_spec(
            parts,
            groups,
            m,
            start,
            i,
            matched,
        ).1 == m && !matched),
    decreases i - start,
{
    if i <= start {
    } else {
        let pos = i - 1;
        if !m.boundaries[pos].spec_is_end() {
            lemma_run_rev_false(parts, groups, m, start, pos, matched);
        } else {
            match scan_rev_spec(parts, groups, m, pos, start, parts.len() - 1, None, None) {
                Some(ms) => {
                    if start <= ms && ms <= pos {
                        lemma_run_rev_matched(parts, groups, mark_model(m, ms, pos + 1), start, ms);
                    } else {
                        lemma_run_rev_false(parts, groups, m, start, pos, matched);
                    }
                },
                None => {
                    lemma_run_rev_false(parts, groups, m, start, pos, matched);
                },
            }
        }
    }
}

/// A whole run that reports no match leaves the sentence as it found it.
proof fn lemma_run_spans_false(
    w: WordModel,
    m: SentenceModel,
    spans: Seq<(usize, usize)>,
    k: int,
    matched: bool,
)
    ensures
        !run_spans_spec(w, m, spans, k, matched).0 ==> (run_spans_spec(w, m, spans, k, matched).1
            == m && !matched),
    decreases spans.len() - k,
{
    if k < 0 || k >= spans.len() {
    } else {
        let s = spans[k].0 as int;
        let e = spans[k].1 as int;
        if w.parts.len() > e - s {
            lemma_run_spans_false(w, m, spans, k + 1, matched);
        } else {
            let rm = run_span_spec(w, m, s, e);
            lemma_run_spans_false(w, rm.1, spans, k + 1, matched || rm.0);
            if w.bound_left {
                lemma_run_fwd_false(w.parts, w.groups, m, s, e, w.bound_right, true, false);
            } else if w.bound_right {
                lemma_run_rev_false(w.parts, w.groups, m, s, e, false);
            } else {
                lemma_run_fwd_false(w.parts, w.groups, m, s, e, false, false, false);
            }
        }
    }
}

/// Idempotence of a non-match: a `matches` run that records nothing leaves
/// the sentence exactly as it found it, so running the same word against
/// the same sentence again still records nothing. In particular, once a
/// first run has marked every occurrence the word can record, a second run
/// returns `false`.
pub proof fn lemma_nonmatch_idempotent(w: WordModel, m: SentenceModel)
    ensures
        !matches_model(w, m).0 ==> matches_model(w, m).1 == m,
        !matches_model(w, m).0 ==> !matches_model(w, matches_model(w, m).1).0,
{
    lemma_run_spans_false(w, m, m.spans, 0, false);
}


/// The canonical rendering of one literal character: `*`, `[` and `\` are
/// escaped so that re-parsing reads them literally.
pub open spec fn render_single(c: char) -> Seq<char> {
    if c == '*' || c == '[' || c == '\\' {
        seq!['\\', c]
    } else {
        seq![c]
    }
}

/// The canonical rendering of a class range: each character literally,
/// with `]` and `\` escaped.
pub open spec fn render_group_chars(groups: Seq<char>, a: int, b: int) -> Seq<char>
    decreases b - a,
{
    if a >= b {
        Seq::empty()
    } else {
        (if groups[a] == ']' || groups[a] == '\\' {
            seq!['\\', groups[a]]
        } else {
            seq![groups[a]]
        }) + render_group_chars(groups, a + 1, b)
    }
}

/// The canonical rendering of one part.
pub open spec fn render_part(p: WordPart, groups: Seq<char>) -> Seq<char> {
    match p {
        WordPart::Single(c) => render_single(c),
        WordPart::Group(a, b) => seq!['['] + render_group_chars(groups, a as int, b as int)
            + seq![']'],
        WordPart::SingleWildcard => seq!['*'],
        WordPart::AnyWildcard => seq!['*', '*'],
    }
}

/// The canonical rendering of the parts from index `k` on.
pub open spec fn render_parts(parts: Seq<WordPart>, groups: Seq<char>, k: int) -> Seq<char>
    decreases parts.len() - k,
{
    if k < 0 || k >= parts.len() {
        Seq::empty()
    } else {
        render_part(parts[k], groups) + render_parts(parts, groups, k + 1)
    }
}

/// The canonical rendering of a whole word: an unbound side re-emits `**`.
pub open spec fn render_word(m: WordModel) -> Seq<char> {
    (if m.bound_left {
        Seq::empty()
    } else {
        seq!['*', '*']
    }) + render_parts(m.parts, m.groups, 0) + (if m.bound_right {
        Seq::empty()
    } else {
        seq!['*', '*']
    })
}

/// Renders a class range into `out`; see [`render_group_chars`].
fn render_group_rec(group_chars: &Vec<char>, a: usize, b: usize, out: &mut Vec<char>)
    requires
        a <= b,
        b <= group_chars@.len(),
    ensures
        final(out)@ == old(out)@ + render_group_chars(group_chars@, a as int, b as int),
    decreases b - a,
{
    if a >= b {
        proof {
            assert(out@ + render_group_chars(group_chars@, a as int, b as int) =~= out@);
        }
        return ;
    }
    let ghost o0 = out@;
    let c = group_chars[a];
    if c == ']' || c == '\\' {
        out.push('\\');
        out.push(c);
    } else {
        out.push(c);
    }
    let ghost head = (if group_chars@[a as int] == ']' || group_chars@[a as int] == '\\' {
        seq!['\\', group_chars@[a as int]]
    } else {
        seq![group_chars@[a as int]]
    });
    proof {
        assert(out@ =~= o0 + head);
    }
    render_group_rec(group_chars, a + 1, b, out);
    proof {
        assert((o0 + head) + render_group_chars(group_chars@, a as int + 1, b as int) =~= o0
            + render_group_chars(group_chars@, a as int, b as int));
    }
}

/// Renders the parts from index `k` on into `out`; see [`render_parts`].
fn render_parts_rec(parts: &Vec<WordPart>, group_chars: &Vec<char>, k: usize, out: &mut Vec<char>)
    requires
        scan_parts_ok(parts@, group_chars@),
        k <= parts@.len(),
    ensures
        final(out)@ == old(out)@ + render_parts(parts@, group_chars@, k as int),
    decreases parts@.len() - k,
{
    if k >= parts.len() {
        proof {
            assert(out@ + render_parts(parts@, group_chars@, k as int) =~= out@);
        }
        return ;
    }
    let ghost o0 = out@;
    let p = parts[k];
    match p {
        WordPart::Single(c) => {
            if c == '*' || c == '[' || c == '\\' {
                out.push('\\');
                out.push(c);
            } else {
                out.push(c);
            }
        },
        WordPart::Group(a, b) => {
            out.push('[');
            render_group_rec(group_chars, a, b, out);
            out.push(']');
        },
        WordPart::SingleWildcard => {
            out.push('*');
        },
        WordPart::AnyWildcard => {
            out.push('*');
            out.push('*');
        },
    }
    proof {
        assert(out@ =~= o0 + render_part(parts@[k as int], group_chars@));
    }
    render_parts_rec(parts, group_chars, k + 1, out);
    proof {
        assert((o0 + render_part(parts@[k as int], group_chars@)) + render_parts(
            parts@,
            group_chars@,
            k as int + 1,
        ) =~= o0 + render_parts(parts@, group_chars@, k as int));
    }
}


/// Copies a part vector.
fn copy_parts(parts: &Vec<WordPart>) -> (r: Vec<WordPart>)
    ensures
        r@ == parts@,
{
    let mut out: Vec<WordPart> = Vec::new();
    let mut i: usize = 0;
    while i < parts.len()
        invariant
            i <= parts@.len(),
            out@ == parts@.take(i as int),
        decreases parts@.len() - i,
    {
        out.push(parts[i]);
        proof {
            assert(out@ =~= parts@.take(i as int + 1));
        }
        i = i + 1;
    }
    proof {
        assert(parts@.take(parts@.len() as int) =~= parts@);
    }
    out
}

/// Copies a character vector.
fn copy_chars(chars: &Vec<char>) -> (r: Vec<char>)
    ensures
        r@ == chars@,
{
    let mut out: Vec<char> = Vec::new();
    let mut i: usize = 0;
    while i < chars.len()
        invariant
            i <= chars@.len(),
            out@ == chars@.take(i as int),
        decreases chars@.len() - i,
    {
        out.push(chars[i]);
        proof {
            assert(out@ =~= chars@.take(i as int + 1));
        }
        i = i + 1;
    }
    proof {
        assert(chars@.take(chars@.len() as int) =~= chars@);
    }
    out
}

impl Clone for Word {
    fn clone(&self) -> (r: Self)
        ensures
            r@ == self@,
    {
        Word {
            parts: copy_parts(&self.parts),
            group_chars: copy_chars(&self.group_chars),
            bound_left: self.bound_left,
            bound_right: self.bound_right,
        }
    }
}


/// A part a group-free rendering round trip can handle: a literal or a
/// wildcard.
pub open spec fn renderable_part(p: WordPart) -> bool {
    p is Single || p is SingleWildcard || p is AnyWildcard
}

/// No single-character wildcard directly precedes another wildcard; its
/// rendering would otherwise fuse with the next one into `**`.
pub open spec fn no_fused_wildcards(parts: Seq<WordPart>) -> bool {
    forall|j: int|
        0 <= j && j + 1 < parts.len() && (#[trigger] parts[j]) is SingleWildcard ==> parts[j
            + 1] is Single
}

/// Parsing the rendering of group-free parts, followed by a suffix, gives
/// those parts back in front of whatever the suffix parses to. When the
/// last part is a single-character wildcard, the suffix must not begin
/// with `*`, which would fuse with it.
proof fn lemma_parse_render_parts(parts: Seq<WordPart>, groups: Seq<char>, k: int, suf: Seq<char>)
    requires
        0 <= k <= parts.len(),
        forall|j: int| 0 <= j < parts.len() ==> renderable_part(#[trigger] parts[j]),
        no_fused_wildcards(parts),
        parts.len() > 0 && parts[parts.len() - 1] is SingleWildcard ==> (suf.len() == 0 || suf[0]
            != '*'),
    ensures
        parse_parts(render_parts(parts, groups, k) + suf, 0) == (match parse_parts(suf, 0) {
            Ok(pr) => Ok::<(Seq<WordPart>, Seq<char>), WordError>(
                (parts.skip(k) + pr.0, pr.1),
            ),
            Err(e) => Err::<(Seq<WordPart>, Seq<char>), WordError>(e),
        }),
    decreases parts.len() - k,
{
    if k >= parts.len() {
        assert(render_parts(parts, groups, k) + suf =~= suf);
        match parse_parts(suf, 0) {
            Ok(pr) => {
                assert(parts.skip(k) + pr.0 =~= pr.0);
            },
            Err(_) => {},
        }
    } else {
        lemma_parse_render_parts(parts, groups, k + 1, suf);
        let head = render_part(parts[k], groups);
        let rest = render_parts(parts, groups, k + 1) + suf;
        let s = render_parts(parts, groups, k) + suf;
        assert(s =~= head + rest);
        assert(parts.skip(k) =~= seq![parts[k]] + parts.skip(k + 1));
        match parse_parts(suf, 0) {
            Ok(pr) => {
                assert(seq![parts[k]] + (parts.skip(k + 1) + pr.0) =~= parts.skip(k) + pr.0);
            },
            Err(_) => {},
        }
        match parts[k] {
            WordPart::Single(c) => {
                if c == '*' || c == '[' || c == '\\' {
                    assert(s[0] == '\\');
                    assert(s[1] == c);
                    assert(s.len() >= 2);
                    assert(s.skip(2) =~= rest);
                } else {
                    assert(s[0] == c);
                    assert(s.skip(1) =~= rest);
                }
            },
            WordPart::SingleWildcard => {
                assert(s[0] == '*');
                if k + 1 < parts.len() {
                    assert(parts[k + 1] is Single);
                    let c2 = parts[k + 1]->Single_0;
                    assert(rest[0] == render_part(parts[k + 1], groups)[0]);
                    if c2 == '*' || c2 == '[' || c2 == '\\' {
                        assert(rest[0] == '\\');
                    } else {
                        assert(rest[0] == c2);
                    }
                    assert(s[1] == rest[0]);
                    assert(s[1] != '*');
                    assert(s.skip(1) =~= rest);
                } else {
                    assert(rest =~= suf);
                    if suf.len() == 0 {
                        assert(s.len() == 1);
                    } else {
                        assert(s[1] == suf[0]);
                        assert(s[1] != '*');
                    }
                    assert(s.skip(1) =~= rest);
                }
            },
            WordPart::AnyWildcard => {
                assert(s[0] == '*');
                assert(s[1] == '*');
                assert(s.len() >= 2);
                assert(s.skip(2) =~= rest);
            },
            WordPart::Group(_, _) => {
                assert(false);
            },
        }
    }
}

/// Round trip on the canonical part sequence, for group-free patterns:
/// compiling the canonical rendering of a well-formed word reproduces the
/// word exactly. (A rendering can fuse a single-character wildcard with a
/// following wildcard into `**`, so a word with such a part sequence, or
/// one ending in a single-character wildcard on an unbound right side, is
/// left out.)
pub proof fn lemma_render_compile_round_trip(m: WordModel)
    requires
        word_wf(m),
        m.groups == Seq::<char>::empty(),
        forall|k: int| 0 <= k < m.parts.len() ==> renderable_part(#[trigger] m.parts[k]),
        no_fused_wildcards(m.parts),
        !m.bound_right ==> !(m.parts[m.parts.len() - 1] is SingleWildcard),
    ensures
        compile_spec(render_word(m)) == Ok::<WordModel, WordError>(m),
{
    let suf: Seq<char> = if m.bound_right {
        Seq::empty()
    } else {
        seq!['*', '*']
    };
    let body = render_parts(m.parts, m.groups, 0) + suf;
    if !m.bound_right {
        assert(parse_parts(suf, 0) == Ok::<(Seq<WordPart>, Seq<char>), WordError>(
            (seq![WordPart::AnyWildcard], Seq::empty()),
        )) by {
            assert(suf.skip(2) =~= Seq::<char>::empty());
            assert(seq![WordPart::AnyWildcard] + Seq::<WordPart>::empty() =~= seq![
                WordPart::AnyWildcard,
            ]);
        }
    } else {
        assert(parse_parts(suf, 0) == Ok::<(Seq<WordPart>, Seq<char>), WordError>(
            (Seq::empty(), Seq::empty()),
        ));
    }
    lemma_parse_render_parts(m.parts, m.groups, 0, suf);
    let raw = if m.bound_right {
        m.parts
    } else {
        m.parts.push(WordPart::AnyWildcard)
    };
    assert(m.parts.skip(0) =~= m.parts);
    if m.bound_right {
        assert(m.parts + Seq::<WordPart>::empty() =~= raw);
    } else {
        assert(m.parts + seq![WordPart::AnyWildcard] =~= raw);
    }
    assert(parse_parts(body, 0) == Ok::<(Seq<WordPart>, Seq<char>), WordError>(
        (raw, Seq::empty()),
    ));

    if m.bound_left {
        assert(render_word(m) =~= body);
        assert(!(raw[0] is AnyWildcard));
        if m.bound_right {
            assert(!(raw[raw.len() - 1] is AnyWildcard));
            assert(compile_spec(render_word(m))->Ok_0 == m);
        } else {
            assert(raw[raw.len() - 1] is AnyWildcard);
            assert(raw.len() >= 2);
            assert(raw.drop_last() =~= m.parts);
            assert(compile_spec(render_word(m))->Ok_0 == m);
        }
    } else {
        let full = render_word(m);
        assert(full =~= seq!['*', '*'] + body);
        assert(full[0] == '*');
        assert(full[1] == '*');
        assert(full.skip(2) =~= body);
        let raw2 = seq![WordPart::AnyWildcard] + raw;
        assert(parse_parts(full, 0) == Ok::<(Seq<WordPart>, Seq<char>), WordError>(
            (raw2, Seq::empty()),
        ));
        assert(raw2[0] is AnyWildcard);
        assert(raw2.len() >= 2);
        assert(raw2.drop_first() =~= raw);
        if m.bound_right {
            assert(!(raw[raw.len() - 1] is AnyWildcard));
            assert(compile_spec(render_word(m))->Ok_0 == m);
        } else {
            assert(raw[raw.len() - 1] is AnyWildcard);
            assert(raw.len() >= 2);
            assert(raw.drop_last() =~= m.parts);
            assert(compile_spec(render_word(m))->Ok_0 == m);
        }
    }
}

} // verus!
