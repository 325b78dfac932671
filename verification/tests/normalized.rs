use tokenizers::tokenizer::normalizer::{NormalizedString, Range};

#[test]
fn from_keeps_the_text_and_aligns_byte_for_byte() {
    let n = NormalizedString::from("héllo");
    assert_eq!(n.get(), "héllo");
    assert_eq!(n.get_original(), "héllo");
    assert_eq!(n.len(), 6);
    assert_eq!(n.len_original(), 6);
    assert_eq!(n.convert_offsets(Range::Normalized(0..6)), Some(0..6));
    assert_eq!(n.convert_offsets(Range::Normalized(1..3)), Some(1..3));
}

#[test]
fn convert_offsets_rejects_what_is_no_range_of_the_text() {
    let n = NormalizedString::from("abc");
    assert_eq!(n.convert_offsets(Range::Normalized(0..4)), None);
    assert_eq!(n.convert_offsets(Range::Normalized(4..5)), None);
    #[allow(clippy::reversed_empty_ranges)]
    let reversed = 2..1;
    assert_eq!(n.convert_offsets(Range::Normalized(reversed)), None);
    assert_eq!(n.convert_offsets(Range::Normalized(3..3)), Some(3..3));
    assert_eq!(n.convert_offsets(Range::Normalized(0..0)), Some(0..0));
}

#[test]
fn convert_offsets_on_an_empty_text() {
    let n = NormalizedString::from("");
    assert_eq!(n.len(), 0);
    assert_eq!(n.convert_offsets(Range::Normalized(0..0)), Some(0..0));
    assert_eq!(n.convert_offsets(Range::Normalized(0..1)), None);
}

#[test]
fn merge_with_appends_and_shifts_the_alignments() {
    let mut n = NormalizedString::from("ab");
    let other = NormalizedString::from("cde");
    n.merge_with(&other);
    assert_eq!(n.get(), "abcde");
    assert_eq!(n.get_original(), "abcde");
    assert_eq!(n.len(), 5);
    assert_eq!(n.convert_offsets(Range::Normalized(2..5)), Some(2..5));
    assert_eq!(n.convert_offsets(Range::Normalized(1..4)), Some(1..4));
}

#[test]
fn replace_aligns_new_bytes_with_what_they_replace() {
    let mut n = NormalizedString::from("Hello World");
    assert!(n.replace(0, 5, "hi"));
    assert_eq!(n.get(), "hi World");
    assert_eq!(n.get_original(), "Hello World");
    assert_eq!(n.len(), 8);
    // both new bytes stand for the five bytes they replaced
    assert_eq!(n.convert_offsets(Range::Normalized(0..1)), Some(0..5));
    assert_eq!(n.convert_offsets(Range::Normalized(1..2)), Some(0..5));
    assert_eq!(n.convert_offsets(Range::Normalized(0..2)), Some(0..5));
    // what follows keeps its place in the original
    assert_eq!(n.convert_offsets(Range::Normalized(3..8)), Some(6..11));
    assert_eq!(n.convert_offsets(Range::Normalized(0..8)), Some(0..11));
}

#[test]
fn replace_can_remove_and_insert() {
    let mut n = NormalizedString::from("  ab");
    assert!(n.replace(0, 2, ""));
    assert_eq!(n.get(), "ab");
    assert_eq!(n.convert_offsets(Range::Normalized(0..2)), Some(2..4));
    assert!(n.replace(2, 2, "!"));
    assert_eq!(n.get(), "ab!");
    assert_eq!(n.convert_offsets(Range::Normalized(2..3)), Some(4..4));
    assert!(n.replace(0, 0, "_"));
    assert_eq!(n.get(), "_ab!");
    assert_eq!(n.convert_offsets(Range::Normalized(0..1)), Some(2..2));
    assert_eq!(n.convert_offsets(Range::Normalized(1..2)), Some(2..3));
}

#[test]
fn replace_refuses_a_cut_inside_a_character() {
    let mut n = NormalizedString::from("é!");
    assert!(!n.replace(1, 2, "x"));
    assert!(!n.replace(0, 1, "x"));
    assert!(!n.replace(2, 1, "x"));
    assert!(!n.replace(0, 4, "x"));
    assert_eq!(n.get(), "é!");
    assert_eq!(n.len(), 3);
    assert!(n.replace(0, 2, "e"));
    assert_eq!(n.get(), "e!");
    assert_eq!(n.convert_offsets(Range::Normalized(0..1)), Some(0..2));
    assert_eq!(n.convert_offsets(Range::Normalized(1..2)), Some(2..3));
}
