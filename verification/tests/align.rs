use detok::{AlignmentIndex, ConstructionError};

fn sample() -> AlignmentIndex {
    AlignmentIndex::new(
        vec![Some(0), Some(0), Some(1)],
        vec![Some(0), Some(0), Some(0)],
        vec![(0, 2), (2, 5), (5, 8)],
    )
    .unwrap()
}

#[test]
fn word_to_tokens_returns_the_half_open_interval() {
    let ix = sample();
    assert_eq!(ix.word_to_tokens(0, 0), Some((0, 2)));
    assert_eq!(ix.word_to_tokens(1, 0), Some((2, 3)));
}

#[test]
fn word_to_tokens_not_found_for_missing_word_or_sequence() {
    let ix = sample();
    assert_eq!(ix.word_to_tokens(2, 0), None);
    assert_eq!(ix.word_to_tokens(0, 1), None);
}

#[test]
fn word_to_chars_spans_first_start_to_last_end() {
    let ix = sample();
    assert_eq!(ix.word_to_chars(0, 0), Some((0, 5)));
    assert_eq!(ix.word_to_chars(1, 0), Some((5, 8)));
    assert_eq!(ix.word_to_chars(3, 0), None);
}

#[test]
fn char_to_token_finds_the_covering_token() {
    let ix = sample();
    assert_eq!(ix.char_to_token(6, 0), Some(2));
    assert_eq!(ix.char_to_token(0, 0), Some(0));
    assert_eq!(ix.char_to_token(9, 0), None);
    assert_eq!(ix.char_to_token(6, 1), None);
}

#[test]
fn char_to_word_resolves_through_the_covering_token() {
    let ix = sample();
    assert_eq!(ix.char_to_word(6, 0), Some(1));
    assert_eq!(ix.char_to_word(1, 0), Some(0));
    assert_eq!(ix.char_to_word(9, 0), None);
}

#[test]
fn char_to_word_not_found_when_the_token_has_no_word() {
    let ix = AlignmentIndex::new(
        vec![None, Some(0)],
        vec![Some(0), Some(0)],
        vec![(0, 3), (3, 6)],
    )
    .unwrap();
    assert_eq!(ix.char_to_word(1, 0), None);
    assert_eq!(ix.char_to_word(4, 0), Some(0));
}

#[test]
fn token_to_sequence_reads_the_entry_or_nothing() {
    let ix = AlignmentIndex::new(
        vec![Some(0), None],
        vec![Some(1), None],
        vec![(0, 1), (1, 2)],
    )
    .unwrap();
    assert_eq!(ix.token_to_sequence(0), Some(1));
    assert_eq!(ix.token_to_sequence(1), None);
    assert_eq!(ix.token_to_sequence(2), None);
}

#[test]
fn token_to_chars_returns_sequence_and_span() {
    let ix = sample();
    assert_eq!(ix.token_to_chars(1), Some((0, (2, 5))));
}

#[test]
fn token_to_word_returns_sequence_and_word() {
    let ix = sample();
    assert_eq!(ix.token_to_word(2), Some((0, 1)));
}

#[test]
fn token_queries_out_of_range_return_none_not_a_default() {
    let ix = sample();
    assert_eq!(ix.token_to_word(3), None);
    assert_eq!(ix.token_to_chars(3), None);
    assert_eq!(ix.token_to_word(usize::MAX), None);
    assert_eq!(ix.token_to_chars(usize::MAX), None);
}

#[test]
fn token_queries_need_the_association_present() {
    let ix = AlignmentIndex::new(
        vec![None],
        vec![None],
        vec![(0, 4)],
    )
    .unwrap();
    assert_eq!(ix.token_to_word(0), None);
    assert_eq!(ix.token_to_chars(0), None);
}

#[test]
fn construction_rejects_mismatched_lengths() {
    let r = AlignmentIndex::new(vec![Some(0)], vec![Some(0), Some(0)], vec![(0, 1)]);
    assert!(matches!(r, Err(ConstructionError::MismatchedLengths)));
    let r2 = AlignmentIndex::new(vec![Some(0)], vec![Some(0)], vec![]);
    assert!(matches!(r2, Err(ConstructionError::MismatchedLengths)));
}

#[test]
fn len_counts_tokens() {
    assert_eq!(sample().len(), 3);
}
