use word_filter::confusables::Confusable;
use word_filter::confusables::normalize;
use word_filter::sentence::Boundary;
use word_filter::sentence::CensorError;
use word_filter::sentence::Sentence;
use word_filter::sentence::ToCensoredStringOptions;

#[test]
fn normalize_replaces_confusables_and_lowercases() {
    assert_eq!(normalize("P\u{0435}PE"), "pepe");
    assert_eq!(normalize("Abc 123!"), "abc 123!");
    assert_eq!(normalize("\u{ff11}\u{ff12}"), "12");
}

#[test]
fn char_confusable_trait() {
    assert!('\u{0430}'.contains_confusables());
    assert!(!'a'.contains_confusables());
    assert_eq!('\u{0430}'.replace_confusables(), "a");
    assert_eq!('z'.replace_confusables(), "z");
}

#[test]
fn string_confusable_trait() {
    let s = String::from("P\u{0435}p\u{0435}");
    assert!(s.contains_confusables());
    assert_eq!(s.replace_confusables(), "Pepe");
    let t = String::from("plain");
    assert!(!t.contains_confusables());
    assert_eq!(t.replace_confusables(), "plain");
}

#[test]
fn boundaries_tag_every_character() {
    let s = Sentence::new(String::from("A Pepe"));
    assert_eq!(s.boundaries.len(), 6);
    assert_eq!(
        s.boundaries,
        vec![
            Boundary::Mixed,
            Boundary::NoContent,
            Boundary::Start,
            Boundary::Word,
            Boundary::Word,
            Boundary::End,
        ]
    );
}

#[test]
fn boundaries_no_content_for_punctuation() {
    let s = Sentence::new(String::from("a, b!"));
    assert_eq!(
        s.boundaries,
        vec![
            Boundary::Mixed,
            Boundary::NoContent,
            Boundary::NoContent,
            Boundary::Mixed,
            Boundary::NoContent,
        ]
    );
}

#[test]
fn boundary_is_start_is_end() {
    assert!(Boundary::Start.is_start());
    assert!(Boundary::Mixed.is_start());
    assert!(!Boundary::End.is_start());
    assert!(Boundary::End.is_end());
    assert!(Boundary::Mixed.is_end());
    assert!(!Boundary::Start.is_end());
}

#[test]
fn sentence_length_and_to_string() {
    let s = Sentence::new(String::from("Pepe ate"));
    assert_eq!(s.length(), 8);
    assert_eq!(s.js_to_string(), "pepe ate");
}

#[test]
fn initial_span_covers_whole_text() {
    let s = Sentence::new(String::from("Pepe ate a banana"));
    assert_eq!(s.spans, vec![(0usize, 17usize)]);
    let empty = Sentence::new(String::new());
    assert_eq!(empty.spans.len(), 0);
}

#[test]
fn mark_full_span_removes_it() {
    let mut s = Sentence::new(String::from("abc"));
    assert_eq!(s.spans.len(), 1);
    let found = s.mark(0, 3);
    assert!(found);
    assert_eq!(s.spans.len(), 0);
    assert_eq!(
        s.boundaries,
        vec![Boundary::Marked, Boundary::Marked, Boundary::Marked]
    );
}

#[test]
fn mark_middle_splits_span_and_absorbs_gaps() {
    let mut s = Sentence::new(String::from("ab cd ef"));
    let found = s.mark(3, 5);
    assert!(found);
    // the match absorbs the surrounding spaces, leaving two spans
    assert_eq!(s.spans, vec![(0usize, 2usize), (6usize, 8usize)]);
    assert_eq!(s.boundaries[2], Boundary::NoContent);
    assert_eq!(s.boundaries[3], Boundary::Marked);
    assert_eq!(s.boundaries[4], Boundary::Marked);
    assert_eq!(s.boundaries[5], Boundary::NoContent);
}

#[test]
fn mark_promotes_neighbouring_boundaries() {
    let mut s = Sentence::new(String::from("abcd"));
    let found = s.mark(1, 3);
    assert!(found);
    // "a" becomes a one-character word, "d" the start of what remains
    assert_eq!(
        s.boundaries,
        vec![
            Boundary::Mixed,
            Boundary::Marked,
            Boundary::Marked,
            Boundary::Mixed,
        ]
    );
    assert_eq!(s.spans, vec![(0usize, 1usize), (3usize, 4usize)]);
}

#[test]
fn censoring_uses_original_characters() {
    let original = String::from("Pepe ate a banana");
    let mut s = Sentence::new(original.clone());
    s.mark(0, 4);
    let out = s
        .js_to_censored_string(ToCensoredStringOptions { character: None, original })
        .unwrap();
    assert_eq!(out, "**** ate a banana");
}

#[test]
fn censoring_with_custom_character() {
    let original = String::from("Pepe!");
    let mut s = Sentence::new(original.clone());
    s.mark(0, 4);
    let out = s
        .js_to_censored_string(ToCensoredStringOptions {
            character: Some(String::from("X")),
            original,
        })
        .unwrap();
    assert_eq!(out, "XXXX!");
}

#[test]
fn censoring_rejects_length_mismatch() {
    let s = Sentence::new(String::from("abc"));
    let r = s.js_to_censored_string(ToCensoredStringOptions {
        character: None,
        original: String::from("ab"),
    });
    assert_eq!(r, Err(CensorError::OriginalLengthMismatch));
}
