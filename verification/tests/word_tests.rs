use word_filter::sentence::Sentence;
use word_filter::sentence::ToCensoredStringOptions;
use word_filter::word::Word;
use word_filter::word::WordError;
use word_filter::word::WordMatch;
use word_filter::word_group::WordGroup;
use word_filter::word_part::WordPart;

#[test]
fn full_word_match_and_censor() {
    let original = String::from("Pepe ate a banana");
    let mut s = Sentence::new(original.clone());
    let w = Word::new(String::from("pepe")).unwrap();
    assert!(w.matches(&mut s));
    let out = s
        .js_to_censored_string(ToCensoredStringOptions { character: None, original })
        .unwrap();
    assert_eq!(out, "**** ate a banana");
}

#[test]
fn second_run_after_full_match_returns_false() {
    let mut s = Sentence::new(String::from("Pepe ate a banana"));
    let w = Word::new(String::from("pepe")).unwrap();
    assert!(w.matches(&mut s));
    assert!(!w.matches(&mut s));
}

#[test]
fn no_match_leaves_sentence_unchanged() {
    let mut s = Sentence::new(String::from("nothing here"));
    let w = Word::new(String::from("pepe")).unwrap();
    assert!(!w.matches(&mut s));
    assert_eq!(s.spans, vec![(0usize, 12usize)]);
    assert!(!w.matches(&mut s));
}

#[test]
fn confusable_text_still_matches() {
    // Cyrillic lookalikes in the text collapse to the same normalized word
    let original = String::from("P\u{0435}p\u{0435} ate");
    let mut s = Sentence::new(original.clone());
    let w = Word::new(String::from("pepe")).unwrap();
    assert!(w.matches(&mut s));
}

#[test]
fn single_wildcard_repeats_last_matched_character() {
    // once the attempt has matched a character, `*` only matches a repeat
    let w = Word::new(String::from("a*t")).unwrap();
    let mut abt = Sentence::new(String::from("abt"));
    assert!(!w.matches(&mut abt));
    let mut aat = Sentence::new(String::from("aat"));
    assert!(w.matches(&mut aat));
}

#[test]
fn leading_single_wildcard_matches_anything_first() {
    let w = Word::new(String::from("*t")).unwrap();
    let mut ct = Sentence::new(String::from("ct"));
    assert!(w.matches(&mut ct));
}

#[test]
fn group_dedup_compiles_to_two_characters() {
    let w = Word::new(String::from("[aab]")).unwrap();
    assert_eq!(w.to_string(), "[ab]");
    assert_eq!(w.js_length(), 1);
    let mut s = Sentence::new(String::from("b a t"));
    assert!(w.matches(&mut s));
}

#[test]
fn single_character_group_collapses() {
    let w = Word::new(String::from("[a]b")).unwrap();
    assert_eq!(w.to_string(), "ab");
    assert_eq!(w.js_length(), 2);
}

#[test]
fn empty_group_is_dropped() {
    let w = Word::new(String::from("a[]b")).unwrap();
    assert_eq!(w.to_string(), "ab");
}

#[test]
fn unterminated_group_fails_to_compile() {
    assert_eq!(Word::new(String::from("[abc")).err(), Some(WordError::UnterminatedGroup));
}

#[test]
fn empty_pattern_fails_to_compile() {
    assert_eq!(Word::new(String::new()).err(), Some(WordError::EmptyWord));
}

#[test]
fn trailing_escape_fails_to_compile() {
    assert_eq!(Word::new(String::from("ab\\")).err(), Some(WordError::TrailingEscape));
}

#[test]
fn wildcard_only_pattern_fails_to_compile() {
    assert_eq!(Word::new(String::from("**")).err(), Some(WordError::WildcardOnly));
    assert_eq!(Word::new(String::from("****")).err(), Some(WordError::WildcardOnly));
}

#[test]
fn unbound_pattern_matches_mid_word() {
    let w = Word::new(String::from("**a**")).unwrap();
    assert!(!w.bound_left);
    assert!(!w.bound_right);
    let original = String::from("bab");
    let mut s = Sentence::new(original.clone());
    assert!(w.matches(&mut s));
    let out = s
        .js_to_censored_string(ToCensoredStringOptions { character: None, original })
        .unwrap();
    assert_eq!(out, "b*b");
}

#[test]
fn prefix_match_marks_the_prefix() {
    let original = String::from("prefix here");
    let mut s = Sentence::new(original.clone());
    let w = Word::new(String::from("pre**")).unwrap();
    assert!(w.bound_left);
    assert!(!w.bound_right);
    assert!(w.matches(&mut s));
    let out = s
        .js_to_censored_string(ToCensoredStringOptions { character: None, original })
        .unwrap();
    assert_eq!(out, "***fix here");
}

#[test]
fn suffix_match_marks_the_suffix() {
    let original = String::from("prefix");
    let mut s = Sentence::new(original.clone());
    let w = Word::new(String::from("**fix")).unwrap();
    assert!(!w.bound_left);
    assert!(w.bound_right);
    assert!(w.matches(&mut s));
    let out = s
        .js_to_censored_string(ToCensoredStringOptions { character: None, original })
        .unwrap();
    assert_eq!(out, "pre***");
}

#[test]
fn full_binding_requires_word_boundaries() {
    let mut s = Sentence::new(String::from("prefix"));
    let w = Word::new(String::from("pre")).unwrap();
    assert!(!w.matches(&mut s));
}

#[test]
fn to_string_round_trips_simple_patterns() {
    let w = Word::new(String::from("pepe")).unwrap();
    assert_eq!(w.to_string(), "pepe");
    let w2 = Word::new(String::from("**a**")).unwrap();
    assert_eq!(w2.to_string(), "**a**");
    let w3 = Word::new(String::from("\\*x")).unwrap();
    assert_eq!(w3.to_string(), "\\*x");
    // re-compiling the rendering gives an equivalent pattern
    let again = Word::new(w3.to_string()).unwrap();
    assert_eq!(again.to_string(), w3.to_string());
}

#[test]
fn word_part_matching_rules() {
    let empty: Vec<char> = Vec::new();
    assert!(WordPart::Single('a').matches(&empty, 'a', None));
    assert!(!WordPart::Single('a').matches(&empty, 'b', None));
    assert!(WordPart::SingleWildcard.matches(&empty, 'x', None));
    assert!(WordPart::SingleWildcard.matches(&empty, 'x', Some('x')));
    assert!(!WordPart::SingleWildcard.matches(&empty, 'y', Some('x')));
    assert!(WordPart::AnyWildcard.matches(&empty, 'q', Some('z')));
    let groups = vec!['a', 'b'];
    assert!(WordPart::Group(0, 2).matches(&groups, 'b', None));
    assert!(!WordPart::Group(0, 2).matches(&groups, 'c', None));
}

#[test]
fn word_match_getters() {
    let m = WordMatch { start: 2, end: 5 };
    assert_eq!(m.get_start(), 2);
    assert_eq!(m.get_end(), 5);
}

#[test]
fn word_group_ors_its_words() {
    let g = WordGroup::new(vec![String::from("pepe"), String::from("banana")]).unwrap();
    let original = String::from("Pepe ate a banana");
    let mut s = Sentence::new(original.clone());
    assert!(g.matches(&mut s));
    let out = s
        .js_to_censored_string(ToCensoredStringOptions { character: None, original })
        .unwrap();
    assert_eq!(out, "**** ate a ******");
    assert_eq!(g.get_words().len(), 2);
}

#[test]
fn word_group_fails_on_first_bad_pattern() {
    let r = WordGroup::new(vec![String::from("fine"), String::from("[bad")]);
    assert_eq!(r.err(), Some(WordError::UnterminatedGroup));
}

#[test]
fn word_group_no_match() {
    let g = WordGroup::new(vec![String::from("xyz")]).unwrap();
    let mut s = Sentence::new(String::from("nothing"));
    assert!(!g.matches(&mut s));
}

#[test]
fn group_with_escaped_bracket_round_trips() {
    let w = Word::new(String::from("[a\\]b]")).unwrap();
    assert_eq!(w.to_string(), "[a\\]b]");
    let mut s = Sentence::new(String::from("x b x"));
    assert!(w.matches(&mut s));
}

#[test]
fn confusable_pattern_matches_plain_text() {
    // the pattern is normalized exactly as the sentence is
    let w = Word::new(String::from("p\u{0435}p\u{0435}")).unwrap();
    let mut s = Sentence::new(String::from("pepe here"));
    assert!(w.matches(&mut s));
}

#[test]
fn js_matches_is_the_same_operation() {
    let w = Word::new(String::from("abc")).unwrap();
    let mut s = Sentence::new(String::from("abc"));
    assert!(w.js_matches(&mut s));
    assert!(!w.js_matches(&mut s));
}

#[test]
fn lone_single_wildcard_matches_one_character_words() {
    let w = Word::new(String::from("*")).unwrap();
    let mut s = Sentence::new(String::from("x yz"));
    assert!(w.matches(&mut s));
    // only the one-character word is marked
    assert_eq!(s.boundaries[0], word_filter::sentence::Boundary::Marked);
    assert_eq!(s.boundaries[2], word_filter::sentence::Boundary::Start);
}
