//! A thin collection of compiled words, run one after the other against
//! one sentence.

use vstd::prelude::*;

use crate::sentence::Sentence;
use crate::sentence::SentenceModel;
use crate::word::Word;
use crate::word::WordError;
use crate::word::WordModel;
use crate::word::compile_spec;
use crate::word::matches_model;
use crate::confusables::normalize_spec;

verus! {

/// What a whole group run returns and leaves behind: each word, in order,
/// run against the sentence the previous words left.
pub open spec fn group_run(words: Seq<WordModel>, m: SentenceModel, k: int, matched: bool) -> (
    bool,
    SentenceModel,
)
    decreases words.len() - k,
{
    if k < 0 || k >= words.len() {
        (matched, m)
    } else {
        let rm = matches_model(words[k], m);
        group_run(words, rm.1, k + 1, matched || rm.0)
    }
}

/// A list of compiled words that are checked together.
pub struct WordGroup {
    words: Vec<Word>,
}

impl View for WordGroup {
    type V = Seq<WordModel>;

    closed spec fn view(&self) -> Seq<WordModel> {
        Seq::new(self.words@.len(), |k: int| self.words@[k]@)
    }
}

impl WordGroup {
    /// Every contained word is well-formed.
    pub open spec fn wf(self) -> bool {
        forall|k: int| 0 <= k < self@.len() ==> crate::word::word_wf(#[trigger] self@[k])
    }

    /// Compiles every pattern, in order; the first pattern that fails to
    /// compile fails the whole group with its error.
    pub fn new(entries: Vec<String>) -> (r: Result<WordGroup, WordError>)
        ensures
            match r {
                Ok(g) => g.wf() && g@.len() == entries@.len() && forall|k: int|
                    0 <= k < entries@.len() ==> compile_spec(normalize_spec(entries@[k]@))
                        == Ok::<WordModel, WordError>(#[trigger] g@[k]),
                Err(e) => exists|k: int|
                    0 <= k < entries@.len() && #[trigger] compile_spec(
                        normalize_spec(entries@[k]@),
                    ) == Err::<WordModel, WordError>(e) && (forall|j: int|
                        0 <= j < k ==> compile_spec(normalize_spec(#[trigger] entries@[j]@)) is Ok),
            },
    {
        let mut words: Vec<Word> = Vec::new();
        let n = entries.len();
        let mut i: usize = 0;
        while i < n
            invariant
                i <= entries@.len(),
                n == entries@.len(),
                words@.len() == i,
                forall|k: int|
                    0 <= k < i ==> compile_spec(normalize_spec(entries@[k]@)) == Ok::<
                        WordModel,
                        WordError,
                    >((#[trigger] words@[k])@),
                forall|k: int| 0 <= k < i ==> (#[trigger] words@[k]).wf(),
            decreases entries@.len() - i,
        {
            let entry = entries[i].clone();
            proof {
                assert(entry@ == entries@[i as int]@);
            }
            match Word::new(entry) {
                Ok(w) => {
                    words.push(w);
                },
                Err(e) => {
                    proof {
                        assert(compile_spec(normalize_spec(entries@[i as int]@)) == Err::<
                            WordModel,
                            WordError,
                        >(e));
                        assert forall|j: int| 0 <= j < i as int implies compile_spec(
                            normalize_spec(#[trigger] entries@[j]@),
                        ) is Ok by {
                            assert(compile_spec(normalize_spec(entries@[j]@)) == Ok::<
                                WordModel,
                                WordError,
                            >(words@[j]@));
                        }
                    }
                    return Err(e);
                },
            }
            i = i + 1;
        }
        let g = WordGroup { words };
        proof {
            assert forall|k: int| 0 <= k < entries@.len() implies compile_spec(
                normalize_spec(entries@[k]@),
            ) == Ok::<WordModel, WordError>(#[trigger] g@[k]) by {
                assert(g@[k] == g.words@[k]@);
            }
            assert forall|k: int| 0 <= k < g@.len() implies crate::word::word_wf(
                #[trigger] g@[k],
            ) by {
                assert(g@[k] == g.words@[k]@);
            }
        }
        Ok(g)
    }

    /// A copy of the contained words.
    pub fn get_words(&self) -> (r: Vec<Word>)
        ensures
            r@.len() == self@.len(),
            forall|k: int| 0 <= k < r@.len() ==> (#[trigger] r@[k])@ == self@[k],
    {
        let mut out: Vec<Word> = Vec::new();
        let mut i: usize = 0;
        while i < self.words.len()
            invariant
                i <= self.words@.len(),
                out@.len() == i,
                forall|k: int| 0 <= k < i ==> (#[trigger] out@[k])@ == self.words@[k]@,
            decreases self.words@.len() - i,
        {
            out.push(self.words[i].clone());
            i = i + 1;
        }
        proof {
            assert forall|k: int| 0 <= k < out@.len() implies (#[trigger] out@[k])@ == self@[k] by {
                assert(self@[k] == self.words@[k]@);
            }
        }
        out
    }

    /// Runs every contained word against the sentence, in order, marking
    /// what each records; returns whether any word recorded a match.
    pub fn matches(&self, sentence: &mut Sentence) -> (r: bool)
        requires
            old(sentence).wf(),
            self.wf(),
        ensures
            final(sentence).wf(),
            (r, final(sentence)@) == group_run(self@, old(sentence)@, 0, false),
    {
        self.matches_from(sentence, 0, false)
    }

    /// Runs the words from index `k` on; see [`group_run`].
    fn matches_from(&self, sentence: &mut Sentence, k: usize, matched: bool) -> (r: bool)
        requires
            old(sentence).wf(),
            self.wf(),
            k <= self@.len(),
        ensures
            final(sentence).wf(),
            (r, final(sentence)@) == group_run(self@, old(sentence)@, k as int, matched),
        decreases self@.len() - k,
    {
        if k >= self.words.len() {
            return matched;
        }
        proof {
            assert(self.words@[k as int]@ == self@[k as int]);
        }
        let r2 = self.words[k].matches(sentence);
        self.matches_from(sentence, k + 1, matched || r2)
    }
}

} // verus!
