//! One unit of a compiled pattern: a literal character, a character class,
//! or a wildcard. A class does not own its characters; it holds a range
//! into the word's shared class-character buffer, so that a part is a
//! plain value.

use vstd::prelude::*;

verus! {

/// One unit of a compiled pattern.
#[derive(Clone, Copy, PartialEq, Eq, Structural, Debug)]
pub enum WordPart {
    /// A single literal character.
    Single(char),
    /// A character class (`[abc]`): the half-open range of its
    /// (deduplicated, first-seen order) characters in the word's class
    /// buffer.
    Group(usize, usize),
    /// The single-character wildcard, `*`.
    SingleWildcard,
    /// The unanchored wildcard, `**`.
    AnyWildcard,
}

/// Whether a part matches `character`, given the word's class buffer and
/// the character that the current matching attempt last matched. A
/// `Single` matches exactly its character, a `Group` any character of its
/// range, and an `AnyWildcard` anything. A `SingleWildcard` matches
/// anything while the attempt has matched nothing yet, and afterwards only
/// a repeat of the last matched character.
pub open spec fn part_matches(
    p: WordPart,
    groups: Seq<char>,
    character: char,
    previous: Option<char>,
) -> bool {
    match p {
        WordPart::Single(c) => c == character,
        WordPart::Group(a, b) => groups.subrange(a as int, b as int).contains(character),
        WordPart::SingleWildcard => match previous {
            Some(c) => c == character,
            None => true,
        },
        WordPart::AnyWildcard => true,
    }
}

/// A part is well-formed for a class buffer: a class range lies inside the
/// buffer and holds at least two characters.
pub open spec fn part_wf(p: WordPart, groups: Seq<char>) -> bool {
    match p {
        WordPart::Group(a, b) => a + 2 <= b && b <= groups.len(),
        _ => true,
    }
}

impl WordPart {
    /// Whether this part matches `character`; see [`part_matches`].
    pub fn matches(
        &self,
        group_chars: &Vec<char>,
        character: char,
        previous_character: Option<char>,
    ) -> (r: bool)
        requires
            (*self) matches WordPart::Group(a, b) ==> a <= b && b <= group_chars@.len(),
        ensures
            r == part_matches(*self, group_chars@, character, previous_character),
    {
        match self {
            WordPart::Single(c) => *c == character,
            WordPart::Group(ga, gb) => {
                let a = *ga;
                let b = *gb;
                let mut i: usize = a;
                while i < b
                    invariant
                        *self == WordPart::Group(a, b),
                        a <= i <= b && b <= group_chars@.len(),
                        forall|j: int| a <= j < i ==> group_chars@[j] != character,
                    decreases b - i,
                {
                    if group_chars[i] == character {
                        proof {
                            assert(group_chars@.subrange(a as int, b as int)[i - a] == character);
                            assert(group_chars@.subrange(a as int, b as int).contains(character));
                        }
                        return true;
                    }
                    i = i + 1;
                }
                proof {
                    assert forall|j: int|
                        0 <= j < group_chars@.subrange(a as int, b as int).len() implies (
                    #[trigger] group_chars@.subrange(a as int, b as int)[j]) != character by {
                        assert(group_chars@.subrange(a as int, b as int)[j] == group_chars@[j
                            + a]);
                    }
                    assert(!group_chars@.subrange(a as int, b as int).contains(character));
                }
                false
            },
            WordPart::SingleWildcard => match previous_character {
                Some(c) => c == character,
                None => true,
            },
            WordPart::AnyWildcard => true,
        }
    }
}

} // verus!
