//! The boundary-tagged text model: a normalized character sequence, a
//! per-character word-boundary classification, and a list of disjoint,
//! sorted, non-empty "unchecked" spans. Recording a match (`mark`) shrinks
//! the spans and promotes the surrounding boundaries, so that later matches
//! cannot re-select already-marked text.

use vstd::prelude::*;

use crate::confusables::chars_of;
use crate::confusables::is_alphanum;
use crate::confusables::is_alphanumeric_char;
use crate::confusables::normalize;
use crate::confusables::normalize_spec;
use crate::confusables::string_from_chars;

verus! {

/// Per-character classification of a position within or outside a word,
/// and of whether it has already been matched.
#[derive(Clone, Copy, PartialEq, Eq, Structural, Debug)]
pub enum Boundary {
    /// The first character of a word of two or more characters.
    Start,
    /// An interior character of a word.
    Word,
    /// The last character of a word of two or more characters.
    End,
    /// A single-character word: both the start and the end.
    Mixed,
    /// A non-alphanumeric character: whitespace, punctuation, control.
    NoContent,
    /// A character that belongs to an already-matched region.
    Marked,
}

impl Boundary {
    /// Whether a word may start at a character with this tag.
    pub open spec fn spec_is_start(self) -> bool {
        self == Boundary::Start || self == Boundary::Mixed
    }

    /// Whether a word may end at a character with this tag.
    pub open spec fn spec_is_end(self) -> bool {
        self == Boundary::End || self == Boundary::Mixed
    }

    pub fn is_start(&self) -> (r: bool)
        ensures
            r == self.spec_is_start(),
    {
        matches!(self, Boundary::Start | Boundary::Mixed)
    }

    pub fn is_end(&self) -> (r: bool)
        ensures
            r == self.spec_is_end(),
    {
        matches!(self, Boundary::End | Boundary::Mixed)
    }
}

/// The boundary tag that position `i` of a normalized text carries right
/// after construction: `NoContent` off words, and `Start`/`Word`/`End` or
/// `Mixed` depending on whether the neighbours continue the word.
pub open spec fn boundary_spec(contents: Seq<char>, i: int) -> Boundary {
    if !is_alphanum(contents[i]) {
        Boundary::NoContent
    } else {
        let joins_left = i > 0 && is_alphanum(contents[i - 1]);
        let joins_right = i + 1 < contents.len() && is_alphanum(contents[i + 1]);
        if joins_left && joins_right {
            Boundary::Word
        } else if joins_left {
            Boundary::End
        } else if joins_right {
            Boundary::Start
        } else {
            Boundary::Mixed
        }
    }
}

/// The mathematical model of a `Sentence`.
pub ghost struct SentenceModel {
    pub contents: Seq<char>,
    pub boundaries: Seq<Boundary>,
    pub spans: Seq<(usize, usize)>,
}

/// Spans are non-empty, lie inside `[0, len)`, and are sorted and disjoint.
pub open spec fn spans_wf(spans: Seq<(usize, usize)>, len: nat) -> bool {
    &&& forall|k: int|
        0 <= k < spans.len() ==> (#[trigger] spans[k]).0 < spans[k].1 && spans[k].1 <= len
    &&& forall|k: int| 0 <= k && k + 1 < spans.len() ==> (#[trigger] spans[k]).1 <= spans[k + 1].0
}

/// Whether position `i` lies inside one of the spans.
pub open spec fn in_spans(spans: Seq<(usize, usize)>, i: int) -> bool {
    exists|k: int| 0 <= k < spans.len() && (#[trigger] spans[k]).0 <= i < spans[k].1
}

impl SentenceModel {
    /// The sentence invariant: boundaries tag every character, spans are
    /// well-formed, every character outside the spans is already matched or
    /// carries no content, and no marked character lies inside a span. The
    /// union of the spans and the marked characters therefore covers all of
    /// `[0, len)` except the `NoContent` characters absorbed into matches.
    pub open spec fn wf(self) -> bool {
        &&& self.boundaries.len() == self.contents.len()
        &&& spans_wf(self.spans, self.contents.len())
        &&& forall|i: int|
            0 <= i < self.contents.len() && !in_spans(self.spans, i)
                ==> (#[trigger] self.boundaries[i]) == Boundary::Marked || self.boundaries[i]
                == Boundary::NoContent
        &&& forall|i: int|
            0 <= i < self.contents.len() && in_spans(self.spans, i)
                ==> (#[trigger] self.boundaries[i]) != Boundary::Marked
    }
}

/// Whether the span contains the whole range `[start, end)`.
pub open spec fn span_contains(sp: (usize, usize), start: int, end: int) -> bool {
    sp.0 <= start && end <= sp.1
}

/// The first index at or after `k` of a span containing `[start, end)`,
/// or `-1` if there is none.
pub open spec fn find_span_from(
    spans: Seq<(usize, usize)>,
    start: int,
    end: int,
    k: int,
) -> int
    decreases spans.len() - k,
{
    if k < 0 || k >= spans.len() {
        -1
    } else if span_contains(spans[k], start, end) {
        k
    } else {
        find_span_from(spans, start, end, k + 1)
    }
}

/// The first index of a span containing `[start, end)`, or `-1`.
pub open spec fn find_span(spans: Seq<(usize, usize)>, start: int, end: int) -> int {
    find_span_from(spans, start, end, 0)
}

/// Extends `start` leftward over a contiguous run of `NoContent`
/// boundaries, but not below `lo`.
pub open spec fn expand_left(b: Seq<Boundary>, lo: int, start: int) -> int
    decreases start - lo,
    when lo <= start
{
    if start > lo && b[start - 1] == Boundary::NoContent {
        expand_left(b, lo, start - 1)
    } else {
        start
    }
}

/// Extends `end` rightward over a contiguous run of `NoContent`
/// boundaries, but not beyond `hi`.
pub open spec fn expand_right(b: Seq<Boundary>, hi: int, end: int) -> int
    decreases hi - end,
    when end <= hi
{
    if end < hi && b[end] == Boundary::NoContent {
        expand_right(b, hi, end + 1)
    } else {
        end
    }
}

/// How the boundary just before a marked region is promoted: a word start
/// becomes a single-character word, a word interior becomes the word's end.
pub open spec fn promote_before(b: Boundary) -> Boundary {
    match b {
        Boundary::Start | Boundary::Mixed => Boundary::Mixed,
        Boundary::Word => Boundary::End,
        x => x,
    }
}

/// How the boundary just after a marked region is promoted: a word end
/// becomes a single-character word, a word interior becomes the word's
/// start.
pub open spec fn promote_after(b: Boundary) -> Boundary {
    match b {
        Boundary::End | Boundary::Mixed => Boundary::Mixed,
        Boundary::Word => Boundary::Start,
        x => x,
    }
}

/// The boundary at position `i` after marking the expanded region
/// `[a, b2)`: content characters inside become `Marked`, `NoContent` stays,
/// and the immediate neighbours are promoted.
pub open spec fn marked_boundary_at(b: Seq<Boundary>, a: int, b2: int, i: int) -> Boundary {
    if a <= i < b2 {
        if b[i] == Boundary::NoContent {
            Boundary::NoContent
        } else {
            Boundary::Marked
        }
    } else if i == a - 1 {
        promote_before(b[i])
    } else if i == b2 {
        promote_after(b[i])
    } else {
        b[i]
    }
}

/// All boundaries after marking the expanded region `[a, b2)`.
pub open spec fn mark_boundaries(b: Seq<Boundary>, a: int, b2: int) -> Seq<Boundary> {
    Seq::new(b.len(), |i: int| marked_boundary_at(b, a, b2, i))
}

/// What is left of the span `[s, e)` when the expanded region `[a, b2)` is
/// taken out of it: the piece before and the piece after, each kept only
/// when non-empty.
pub open spec fn residual_spans(s: int, e: int, a: int, b2: int) -> Seq<(usize, usize)> {
    let left: Seq<(usize, usize)> = if s < a {
        seq![(s as usize, a as usize)]
    } else {
        Seq::empty()
    };
    let right: Seq<(usize, usize)> = if b2 < e {
        seq![(b2 as usize, e as usize)]
    } else {
        Seq::empty()
    };
    left + right
}

/// The sentence after recording a match over `[start, end)`: the match is
/// expanded to absorb the adjoining `NoContent` run inside its span, the
/// span is shrunk, split or removed, content characters of the region are
/// marked, and the neighbouring boundaries are promoted. A range that no
/// span contains leaves the sentence unchanged.
pub open spec fn mark_model(m: SentenceModel, start: int, end: int) -> SentenceModel {
    let k = find_span(m.spans, start, end);
    if k < 0 {
        m
    } else {
        let s = m.spans[k].0 as int;
        let e = m.spans[k].1 as int;
        let a = expand_left(m.boundaries, s, start);
        let b2 = expand_right(m.boundaries, e, end);
        SentenceModel {
            contents: m.contents,
            boundaries: mark_boundaries(m.boundaries, a, b2),
            spans: m.spans.take(k) + residual_spans(s, e, a, b2) + m.spans.skip(k + 1),
        }
    }
}

/// Options for rendering a censored string.
#[derive(Clone)]
pub struct ToCensoredStringOptions {
    /// What to emit in place of each marked character; `"*"` when absent.
    pub character: Option<String>,
    /// The original sentence, before normalization and lowercasing.
    pub original: String,
}

/// The one failure of censoring: the original text's character count
/// differs from the sentence's.
#[derive(Clone, Copy, PartialEq, Eq, Structural, Debug)]
pub enum CensorError {
    OriginalLengthMismatch,
}

/// The censoring mask: the requested replacement text, or `*`.
pub open spec fn mask_of(options: ToCensoredStringOptions) -> Seq<char> {
    match options.character {
        Some(s) => s@,
        None => seq!['*'],
    }
}

/// The censored rendering of `original[i..]`: the mask in place of each
/// character whose boundary is `Marked`, the original character elsewhere.
pub open spec fn censored_from(
    boundaries: Seq<Boundary>,
    original: Seq<char>,
    mask: Seq<char>,
    i: int,
) -> Seq<char>
    decreases original.len() - i,
    when 0 <= i <= original.len()
{
    if i >= original.len() {
        Seq::empty()
    } else {
        (if boundaries[i] == Boundary::Marked {
            mask
        } else {
            seq![original[i]]
        }) + censored_from(boundaries, original, mask, i + 1)
    }
}

/// A normalized sentence, its per-character boundary tags, and the spans
/// of text not yet matched.
pub struct Sentence {
    /// The normalized (confusable-replaced, lowercased) characters.
    pub contents: Vec<char>,
    /// One `Boundary` tag per character of `contents`.
    pub boundaries: Vec<Boundary>,
    /// The sorted, disjoint, non-empty ranges of not-yet-matched text.
    pub spans: Vec<(usize, usize)>,
}

impl View for Sentence {
    type V = SentenceModel;

    open spec fn view(&self) -> SentenceModel {
        SentenceModel { contents: self.contents@, boundaries: self.boundaries@, spans: self.spans@ }
    }
}

impl Sentence {
    /// The sentence invariant; see `SentenceModel::wf`.
    pub open spec fn wf(self) -> bool {
        self@.wf()
    }

    /// Builds a sentence: normalizes the text, tags every character with
    /// its boundary, and opens one span over the whole text (none for an
    /// empty text, since spans are at least one character wide).
    pub fn new(sentence: String) -> (r: Sentence)
        ensures
            r.wf(),
            r@.contents == normalize_spec(sentence@),
            r@.boundaries.len() == r@.contents.len(),
            forall|i: int|
                0 <= i < r@.contents.len() ==> r@.boundaries[i] == boundary_spec(r@.contents, i),
            r@.spans == if r@.contents.len() == 0 {
                Seq::<(usize, usize)>::empty()
            } else {
                seq![(0usize, r@.contents.len() as usize)]
            },
    {
        let normalized = normalize(sentence.as_str());
        let contents = chars_of(normalized.as_str());

        let mut alnum: Vec<bool> = Vec::new();
        let mut i: usize = 0;
        while i < contents.len()
            invariant
                i <= contents@.len(),
                alnum@.len() == i,
                forall|j: int| 0 <= j < i ==> alnum@[j] == is_alphanum(contents@[j]),
            decreases contents@.len() - i,
        {
            alnum.push(is_alphanumeric_char(contents[i]));
            i = i + 1;
        }

        let mut boundaries: Vec<Boundary> = Vec::new();
        let mut i: usize = 0;
        while i < contents.len()
            invariant
                i <= contents@.len(),
                alnum@.len() == contents@.len(),
                forall|j: int| 0 <= j < contents@.len() ==> alnum@[j] == is_alphanum(contents@[j]),
                boundaries@.len() == i,
                forall|j: int| 0 <= j < i ==> boundaries@[j] == boundary_spec(contents@, j),
            decreases contents@.len() - i,
        {
            let b = if !alnum[i] {
                Boundary::NoContent
            } else {
                let joins_left = i > 0 && alnum[i - 1];
                let joins_right = i + 1 < contents.len() && alnum[i + 1];
                if joins_left && joins_right {
                    Boundary::Word
                } else if joins_left {
                    Boundary::End
                } else if joins_right {
                    Boundary::Start
                } else {
                    Boundary::Mixed
                }
            };
            boundaries.push(b);
            i = i + 1;
        }

        let mut spans: Vec<(usize, usize)> = Vec::new();
        if contents.len() > 0 {
            spans.push((0usize, contents.len()));
        }

        let r = Sentence { contents, boundaries, spans };
        proof {
            assert forall|i: int| 0 <= i < r@.contents.len() implies (#[trigger] r@.boundaries[i])
                != Boundary::Marked by {
                assert(r@.boundaries[i] == boundary_spec(r@.contents, i));
            }
            assert forall|i: int|
                0 <= i < r@.contents.len() && !in_spans(r@.spans, i) implies false by {
                assert(r@.spans[0].0 <= i < r@.spans[0].1);
            }
        }
        r
    }

    /// The number of characters of the normalized sentence.
    pub fn length(&self) -> (r: u32)
        requires
            self@.contents.len() <= u32::MAX,
        ensures
            r == self@.contents.len(),
    {
        self.contents.len() as u32
    }

    /// The normalized contents as a string (not the original text).
    pub fn js_to_string(&self) -> (r: String)
        ensures
            r@ == self@.contents,
    {
        string_from_chars(&self.contents)
    }

    /// Renders the original text with every marked character replaced by
    /// the chosen censoring text. Fails exactly when the original's
    /// character count differs from the sentence's.
    pub fn js_to_censored_string(&self, options: ToCensoredStringOptions) -> (r: Result<
        String,
        CensorError,
    >)
        requires
            self@.boundaries.len() == self@.contents.len(),
        ensures
            match r {
                Ok(out) => options.original@.len() == self@.contents.len() && out@
                    == censored_from(self@.boundaries, options.original@, mask_of(options), 0),
                Err(e) => e == CensorError::OriginalLengthMismatch && options.original@.len()
                    != self@.contents.len(),
            },
    {
        let mask: Vec<char> = match &options.character {
            Some(s) => chars_of(s.as_str()),
            None => {
                let mut one: Vec<char> = Vec::new();
                one.push('*');
                one
            },
        };
        let original = chars_of(options.original.as_str());
        if original.len() != self.contents.len() {
            return Err(CensorError::OriginalLengthMismatch);
        }

        let ghost bs = self@.boundaries;
        let ghost orig = original@;
        let ghost msk = mask@;
        let mut out: Vec<char> = Vec::new();
        let mut i: usize = 0;
        while i < original.len()
            invariant
                i <= orig.len(),
                orig.len() == bs.len(),
                orig == original@,
                msk == mask@,
                bs == self@.boundaries,
                out@ + censored_from(bs, orig, msk, i as int) == censored_from(bs, orig, msk, 0),
            decreases orig.len() - i,
        {
            let ghost out0 = out@;
            if self.boundaries[i] == Boundary::Marked {
                let mut j: usize = 0;
                while j < mask.len()
                    invariant
                        j <= msk.len(),
                        msk == mask@,
                        out@ == out0 + msk.take(j as int),
                    decreases msk.len() - j,
                {
                    out.push(mask[j]);
                    proof {
                        assert(out@ =~= out0 + msk.take(j as int + 1));
                    }
                    j = j + 1;
                }
                proof {
                    assert(out@ =~= out0 + msk);
                }
            } else {
                out.push(original[i]);
            }
            proof {
                assert(out@ + censored_from(bs, orig, msk, i as int + 1) =~= censored_from(
                    bs,
                    orig,
                    msk,
                    0,
                ));
            }
            i = i + 1;
        }
        proof {
            assert(out@ + censored_from(bs, orig, msk, orig.len() as int) =~= out@);
        }
        Ok(string_from_chars(&out))
    }

    /// The first span containing `[start, end)`, if any.
    fn find_containing_span(&self, start: usize, end: usize) -> (r: Option<usize>)
        ensures
            match r {
                Some(k) => find_span(self@.spans, start as int, end as int) == k as int && (
                k as int) < self@.spans.len(),
                None => find_span(self@.spans, start as int, end as int) < 0,
            },
    {
        let mut k: usize = 0;
        while k < self.spans.len()
            invariant
                k <= self@.spans.len(),
                find_span(self@.spans, start as int, end as int) == find_span_from(
                    self@.spans,
                    start as int,
                    end as int,
                    k as int,
                ),
            decreases self@.spans.len() - k,
        {
            let (s, e) = self.spans[k];
            if s <= start && end <= e {
                return Some(k);
            }
            k = k + 1;
        }
        None
    }

    /// Expands `[start, end)` over the adjoining `NoContent` run inside the
    /// span at index `k`, then shrinks, splits or removes that span so that
    /// the expanded region is no longer covered. Returns the expanded region.
    fn mark_update_spans(&mut self, k: usize, start: usize, end: usize) -> (ab: (usize, usize))
        requires
            old(self).wf(),
            (k as int) < old(self)@.spans.len(),
            span_contains(old(self)@.spans[k as int], start as int, end as int),
            start < end,
        ensures
            ({
                let s = old(self)@.spans[k as int].0 as int;
                let e = old(self)@.spans[k as int].1 as int;
                let a = expand_left(old(self)@.boundaries, s, start as int);
                let b2 = expand_right(old(self)@.boundaries, e, end as int);
                &&& ab.0 as int == a
                &&& ab.1 as int == b2
                &&& final(self)@.spans == old(self)@.spans.take(k as int) + residual_spans(
                    s,
                    e,
                    a,
                    b2,
                ) + old(self)@.spans.skip(k as int + 1)
            }),
            final(self)@.contents == old(self)@.contents,
            final(self)@.boundaries == old(self)@.boundaries,
    {
        let (s, e) = self.spans[k];
        let ghost bs = self@.boundaries;

        let mut a: usize = start;
        while a > s && self.boundaries[a - 1] == Boundary::NoContent
            invariant
                s <= a <= start,
                start < end <= e,
                s < e <= self@.boundaries.len(),
                self == old(self),
                bs == self@.boundaries,
                expand_left(bs, s as int, start as int) == expand_left(bs, s as int, a as int),
            decreases a,
        {
            proof {
                assert(expand_left(bs, s as int, a as int) == expand_left(
                    bs,
                    s as int,
                    a as int - 1,
                ));
            }
            a = a - 1;
        }

        let mut b2: usize = end;
        while b2 < e && self.boundaries[b2] == Boundary::NoContent
            invariant
                end <= b2 <= e,
                e <= self@.boundaries.len(),

                self == old(self),
                bs == self@.boundaries,
                expand_right(bs, e as int, end as int) == expand_right(bs, e as int, b2 as int),
            decreases e - b2,
        {
            proof {
                assert(expand_right(bs, e as int, b2 as int) == expand_right(
                    bs,
                    e as int,
                    b2 as int + 1,
                ));
            }
            b2 = b2 + 1;
        }

        let ghost spans0 = self@.spans;
        let n = self.spans.len();
        if s < a && b2 < e {
            self.spans[k] = (s, a);
            self.spans.insert(k + 1, (b2, e));
        } else if s < a {
            self.spans[k] = (s, a);
        } else if b2 < e {
            self.spans[k] = (b2, e);
        } else {
            self.spans.remove(k);
        }
        proof {
            assert(self@.spans =~= spans0.take(k as int) + residual_spans(
                s as int,
                e as int,
                a as int,
                b2 as int,
            ) + spans0.skip(k as int + 1));
        }
        (a, b2)
    }

    /// Marks every content character of `[a, b2)` and promotes the
    /// boundaries on either side of the region.
    fn mark_update_boundaries(&mut self, a: usize, b2: usize)
        requires
            a < b2,
            b2 <= old(self)@.boundaries.len(),
        ensures
            final(self)@.boundaries == mark_boundaries(old(self)@.boundaries, a as int, b2 as int),
            final(self)@.contents == old(self)@.contents,
            final(self)@.spans == old(self)@.spans,
    {
        let ghost b0 = self@.boundaries;
        let mut i: usize = a;
        while i < b2
            invariant
                a <= i <= b2,
                b2 <= self@.boundaries.len(),
                self@.boundaries.len() == b0.len(),
                self@.contents == old(self)@.contents,
                self@.spans == old(self)@.spans,
                forall|j: int|
                    0 <= j < b0.len() && !(a <= j < i) ==> self@.boundaries[j] == b0[j],
                forall|j: int|
                    a <= j < i ==> self@.boundaries[j] == (if b0[j] == Boundary::NoContent {
                        Boundary::NoContent
                    } else {
                        Boundary::Marked
                    }),
            decreases b2 - i,
        {
            if !(self.boundaries[i] == Boundary::NoContent) {
                self.boundaries[i] = Boundary::Marked;
            }
            i = i + 1;
        }
        if a > 0 {
            let newv = match self.boundaries[a - 1] {
                Boundary::Start | Boundary::Mixed => Boundary::Mixed,
                Boundary::Word => Boundary::End,
                x => x,
            };
            self.boundaries[a - 1] = newv;
        }
        if b2 < self.boundaries.len() {
            let newv = match self.boundaries[b2] {
                Boundary::End | Boundary::Mixed => Boundary::Mixed,
                Boundary::Word => Boundary::Start,
                x => x,
            };
            self.boundaries[b2] = newv;
        }
        proof {
            assert(self@.boundaries =~= mark_boundaries(b0, a as int, b2 as int));
        }
    }

    /// Records a match over `[start, end)`: the region is expanded to absorb
    /// the adjoining `NoContent` run inside its span, the span is shrunk,
    /// split or removed, the region's content characters become `Marked`,
    /// and the neighbouring boundaries are promoted. Returns whether a span
    /// contained the range; when none does (a violated internal expectation
    /// in the caller), the sentence is left unchanged.
    pub fn mark(&mut self, start: usize, end: usize) -> (found: bool)
        requires
            old(self).wf(),
            start < end,
            end <= old(self)@.contents.len(),
        ensures
            final(self)@ == mark_model(old(self)@, start as int, end as int),
            final(self).wf(),
            found == (find_span(old(self)@.spans, start as int, end as int) >= 0),
    {
        proof {
            lemma_find_span_from(self@.spans, start as int, end as int, 0);
            lemma_mark_model_wf(self@, start as int, end as int);
        }
        match self.find_containing_span(start, end) {
            None => false,
            Some(k) => {
                proof {
                    let s = self@.spans[k as int].0 as int;
                    let e = self@.spans[k as int].1 as int;
                    lemma_expand_left(self@.boundaries, s, start as int);
                    lemma_expand_right(self@.boundaries, e, end as int);
                }
                let ab = self.mark_update_spans(k, start, end);
                self.mark_update_boundaries(ab.0, ab.1);
                true
            },
        }
    }
}

/// `find_span_from` returns the first index at or after `k` of a span
/// containing the range, or `-1` when no such span follows.
proof fn lemma_find_span_from(spans: Seq<(usize, usize)>, start: int, end: int, k: int)
    requires
        0 <= k,
    ensures
        ({
            let r = find_span_from(spans, start, end, k);
            &&& r >= 0 ==> k <= r < spans.len() && span_contains(spans[r], start, end)
            &&& r < 0 ==> forall|j: int|
                k <= j < spans.len() ==> !span_contains(#[trigger] spans[j], start, end)
        }),
    decreases spans.len() - k,
{
    if k < spans.len() && !span_contains(spans[k], start, end) {
        lemma_find_span_from(spans, start, end, k + 1);
    }
}

/// In a well-formed span list, earlier spans end before later spans begin.
proof fn lemma_spans_ordered(spans: Seq<(usize, usize)>, len: nat, k1: int, k2: int)
    requires
        spans_wf(spans, len),
        0 <= k1 < k2 < spans.len(),
    ensures
        spans[k1].1 <= spans[k2].0,
    decreases k2 - k1,
{
    if k1 + 1 < k2 {
        lemma_spans_ordered(spans, len, k1 + 1, k2);
    }
}

/// `expand_left` stops at the first non-`NoContent` boundary, skipping only
/// `NoContent` positions and never leaving `[lo, start]`.
proof fn lemma_expand_left(b: Seq<Boundary>, lo: int, start: int)
    requires
        lo <= start,
    ensures
        ({
            let a = expand_left(b, lo, start);
            &&& lo <= a <= start
            &&& forall|j: int| a <= j < start ==> b[j] == Boundary::NoContent
            &&& a > lo ==> b[a - 1] != Boundary::NoContent
        }),
    decreases start - lo,
{
    if start > lo && b[start - 1] == Boundary::NoContent {
        lemma_expand_left(b, lo, start - 1);
    }
}

/// `expand_right` stops at the first non-`NoContent` boundary, skipping only
/// `NoContent` positions and never leaving `[end, hi]`.
proof fn lemma_expand_right(b: Seq<Boundary>, hi: int, end: int)
    requires
        end <= hi,
    ensures
        ({
            let b2 = expand_right(b, hi, end);
            &&& end <= b2 <= hi
            &&& forall|j: int| end <= j < b2 ==> b[j] == Boundary::NoContent
            &&& b2 < hi ==> b[b2] != Boundary::NoContent
        }),
    decreases hi - end,
{
    if end < hi && b[end] == Boundary::NoContent {
        lemma_expand_right(b, hi, end + 1);
    }
}

/// After a successful `mark`, the new spans are well-formed and cover
/// exactly the old coverage minus the expanded region.
#[verifier::rlimit(100)]
proof fn lemma_mark_spans(m: SentenceModel, start: int, end: int)
    requires
        m.wf(),
        0 <= start < end <= m.contents.len(),
        find_span(m.spans, start, end) >= 0,
    ensures
        ({
            let k = find_span(m.spans, start, end);
            let s = m.spans[k].0 as int;
            let e = m.spans[k].1 as int;
            let a = expand_left(m.boundaries, s, start);
            let b2 = expand_right(m.boundaries, e, end);
            let ns = mark_model(m, start, end).spans;
            &&& spans_wf(ns, m.contents.len())
            &&& forall|i: int|
                in_spans(ns, i) <==> (in_spans(m.spans, i) && !(a <= i < b2))
        }),
{
    lemma_find_span_from(m.spans, start, end, 0);
    let k = find_span(m.spans, start, end);
    let len = m.contents.len();
    let s = m.spans[k].0 as int;
    let e = m.spans[k].1 as int;
    lemma_expand_left(m.boundaries, s, start);
    lemma_expand_right(m.boundaries, e, end);
    let a = expand_left(m.boundaries, s, start);
    let b2 = expand_right(m.boundaries, e, end);
    let res = residual_spans(s, e, a, b2);
    let rl = res.len() as int;
    let ns = m.spans.take(k) + res + m.spans.skip(k + 1);
    assert(mark_model(m, start, end).spans == ns);
    assert(s <= a <= start && end <= b2 <= e);

    // Spans are non-empty and in bounds.
    assert forall|j: int| 0 <= j < ns.len() implies (#[trigger] ns[j]).0 < ns[j].1 && ns[j].1
        <= len by {
        if j < k {
            assert(ns[j] == m.spans[j]);
        } else if j < k + rl {
            assert(res[j - k].0 < res[j - k].1 && res[j - k].1 <= len);
        } else {
            assert(ns[j] == m.spans[j - rl + 1]);
        }
    }

    // Spans stay sorted and disjoint.
    assert forall|j: int| 0 <= j && j + 1 < ns.len() implies (#[trigger] ns[j]).1 <= ns[j
        + 1].0 by {
        if j + 1 < k {
            assert(ns[j] == m.spans[j] && ns[j + 1] == m.spans[j + 1]);
        } else if j + 1 == k {
            assert(ns[j] == m.spans[j]);
            if rl > 0 {
                assert(res[0].0 >= s);
                assert(m.spans[k - 1].1 <= s);
            } else {
                assert(ns[j + 1] == m.spans[k + 1]);
                lemma_spans_ordered(m.spans, len, k - 1, k + 1);
            }
        } else if j + 1 < k + rl {
            assert(res[0] == (s as usize, a as usize) && res[1] == (b2 as usize, e as usize));
        } else if j + 1 == k + rl {
            // last element of take or of res, against the first of skip
            assert(ns[j + 1] == m.spans[k + 1]);
            if rl > 0 {
                assert(ns[j] == res[rl - 1]);
                assert(res[rl - 1].1 <= e);
                assert(m.spans[k].1 <= m.spans[k + 1].0);
            } else {
                assert(ns[j] == m.spans[j]);
                lemma_spans_ordered(m.spans, len, j, k + 1);
            }
        } else {
            assert(ns[j] == m.spans[j - rl + 1] && ns[j + 1] == m.spans[j + 2 - rl]);
        }
    }

    // Coverage, both directions.
    assert forall|i: int| in_spans(ns, i) implies in_spans(m.spans, i) && !(a <= i < b2) by {
        let j = choose|j: int| 0 <= j < ns.len() && (#[trigger] ns[j]).0 <= i < ns[j].1;
        if j < k {
            assert(ns[j] == m.spans[j]);
            lemma_spans_ordered(m.spans, len, j, k);
            assert(in_spans(m.spans, i));
        } else if j < k + rl {
            assert(m.spans[k].0 <= i < m.spans[k].1);
            assert(in_spans(m.spans, i));
        } else {
            assert(ns[j] == m.spans[j - rl + 1]);
            lemma_spans_ordered(m.spans, len, k, j - rl + 1);
            assert(in_spans(m.spans, i));
        }
    }
    assert forall|i: int| in_spans(m.spans, i) && !(a <= i < b2) implies in_spans(ns, i) by {
        let j = choose|j: int|
            0 <= j < m.spans.len() && (#[trigger] m.spans[j]).0 <= i < m.spans[j].1;
        if j < k {
            assert(ns[j] == m.spans[j]);
            assert(ns[j].0 <= i < ns[j].1);
        } else if j == k {
            if i < a {
                assert(s < a);
                assert(res[0] == (s as usize, a as usize));
                assert(ns[k].0 <= i < ns[k].1);
            } else {
                assert(i >= b2);
                assert(b2 < e);
                assert(res[rl - 1] == (b2 as usize, e as usize));
                assert(ns[k + rl - 1].0 <= i < ns[k + rl - 1].1);
            }
        } else {
            assert(ns[j + rl - 1] == m.spans[j]);
            assert(ns[j + rl - 1].0 <= i < ns[j + rl - 1].1);
        }
    }
}

/// Marking preserves the sentence invariant: the new spans stay sorted,
/// disjoint and non-empty, everything that left the spans is `Marked` or
/// `NoContent`, and no `Marked` character enters a span.
pub proof fn lemma_mark_model_wf(m: SentenceModel, start: int, end: int)
    requires
        m.wf(),
        0 <= start < end <= m.contents.len(),
    ensures
        mark_model(m, start, end).wf(),
{
    lemma_find_span_from(m.spans, start, end, 0);
    let k = find_span(m.spans, start, end);
    if k >= 0 {
        lemma_mark_spans(m, start, end);
        let len = m.contents.len();
        let s = m.spans[k].0 as int;
        let e = m.spans[k].1 as int;
        lemma_expand_left(m.boundaries, s, start);
        lemma_expand_right(m.boundaries, e, end);
        let a = expand_left(m.boundaries, s, start);
        let b2 = expand_right(m.boundaries, e, end);
        let nb = mark_boundaries(m.boundaries, a, b2);
        let ns = mark_model(m, start, end).spans;
        assert(mark_model(m, start, end).boundaries == nb);
        assert(mark_model(m, start, end).contents == m.contents);

        // Characters that left the spans are Marked or NoContent.
        assert forall|i: int| 0 <= i < len && !in_spans(ns, i) implies (#[trigger] nb[i])
            == Boundary::Marked || nb[i] == Boundary::NoContent by {
            assert(nb[i] == marked_boundary_at(m.boundaries, a, b2, i));
            if a <= i < b2 {
            } else {
                assert(!in_spans(m.spans, i));
                assert(m.boundaries[i] == Boundary::Marked || m.boundaries[i]
                    == Boundary::NoContent);
            }
        }

        // No Marked character lies inside a span.
        assert forall|i: int| 0 <= i < len && in_spans(ns, i) implies (#[trigger] nb[i])
            != Boundary::Marked by {
            assert(in_spans(m.spans, i) && !(a <= i < b2));
            assert(m.boundaries[i] != Boundary::Marked);
            assert(nb[i] == marked_boundary_at(m.boundaries, a, b2, i));
        }
    }
}

/// After construction, the boundary tags partition each maximal
/// alphanumeric run into `Start Word* End`, or a single `Mixed`.
pub proof fn lemma_word_run_tags(contents: Seq<char>, boundaries: Seq<Boundary>, s: int, e: int)
    requires
        boundaries.len() == contents.len(),
        forall|i: int| 0 <= i < contents.len() ==> boundaries[i] == boundary_spec(contents, i),
        0 <= s < e <= contents.len(),
        forall|j: int| s <= j < e ==> is_alphanum(contents[j]),
        s == 0 || !is_alphanum(contents[s - 1]),
        e == contents.len() || !is_alphanum(contents[e]),
    ensures
        e - s == 1 ==> boundaries[s] == Boundary::Mixed,
        e - s > 1 ==> boundaries[s] == Boundary::Start && boundaries[e - 1] == Boundary::End,
        forall|j: int| s < j < e - 1 ==> boundaries[j] == Boundary::Word,
{
    assert forall|j: int| s < j < e - 1 implies boundaries[j] == Boundary::Word by {
        assert(is_alphanum(contents[j - 1]) && is_alphanum(contents[j + 1]));
    }
}

} // verus!
