use detok::{ConstructionError, Decoder, PrependScheme};

fn toks(v: &[&str]) -> Vec<String> {
    v.iter().map(|s| s.to_string()).collect()
}

#[test]
fn empty_input_decodes_to_empty_string_for_every_kind() {
    let decoders = vec![
        Decoder::byte_fallback(),
        Decoder::byte_level(),
        Decoder::fuse(),
        Decoder::bpe("</w>").unwrap(),
        Decoder::ctc("<pad>", "|", true).unwrap(),
        Decoder::metaspace('\u{2581}', PrependScheme::Always, true),
        Decoder::replace("_", " ").unwrap(),
        Decoder::strip(' ', 1, 1),
        Decoder::wordpiece("##", true).unwrap(),
        Decoder::sequence(vec![Decoder::fuse()]).unwrap(),
    ];
    for d in &decoders {
        assert_eq!(d.decode(&toks(&[])), "");
    }
}

#[test]
fn fuse_concatenates_all_tokens() {
    let d = Decoder::fuse();
    assert_eq!(d.decode(&toks(&["A", "B", "C"])), "ABC");
}

#[test]
fn bpe_suffix_marks_word_boundaries() {
    let d = Decoder::bpe("</w>").unwrap();
    assert_eq!(d.decode(&toks(&["hel", "lo</w>", "wor", "ld</w>"])), "hello world");
}

#[test]
fn bpe_last_token_gets_no_trailing_space() {
    let d = Decoder::bpe("</w>").unwrap();
    assert_eq!(d.decode(&toks(&["a</w>"])), "a");
}

#[test]
fn bpe_rejects_empty_suffix() {
    assert!(matches!(Decoder::bpe(""), Err(ConstructionError::EmptyMarker)));
}

#[test]
fn ctc_collapses_duplicates_drops_pad_and_maps_delimiter() {
    let d = Decoder::ctc("<pad>", "|", false).unwrap();
    assert_eq!(d.decode(&toks(&["a", "a", "<pad>", "b", "|", "c"])), "ab c");
}

#[test]
fn ctc_whole_word_stream() {
    let d = Decoder::ctc("<pad>", "|", false).unwrap();
    let input = ["<pad>", "<pad>", "h", "e", "e", "l", "l", "<pad>", "l", "o", "o", "<pad>", "|", "w", "o", "<pad>", "r", "l", "d"];
    assert_eq!(d.decode(&toks(&input)), "hello world");
}

#[test]
fn ctc_collapses_duplicates_before_dropping_pads() {
    // duplicates separated by a pad token are not adjacent, so both survive
    let d = Decoder::ctc("<pad>", "|", false).unwrap();
    assert_eq!(d.decode(&toks(&["a", "<pad>", "a"])), "aa");
}

#[test]
fn ctc_rejects_empty_delimiter() {
    assert!(matches!(Decoder::ctc("<pad>", "", false), Err(ConstructionError::EmptyMarker)));
}

#[test]
fn ctc_rejects_empty_pad() {
    assert!(matches!(Decoder::ctc("", "|", false), Err(ConstructionError::EmptyMarker)));
}

#[test]
fn wordpiece_rejects_empty_prefix() {
    assert!(matches!(Decoder::wordpiece("", true), Err(ConstructionError::EmptyMarker)));
}

#[test]
fn ctc_cleanup_removes_space_before_punctuation() {
    let d = Decoder::ctc("<pad>", "|", true).unwrap();
    assert_eq!(d.decode(&toks(&["it ."])), "it.");
}

#[test]
fn metaspace_always_keeps_the_leading_space() {
    let d = Decoder::metaspace('\u{2581}', PrependScheme::Always, true);
    assert_eq!(d.decode(&toks(&["\u{2581}Hello", "\u{2581}world"])), " Hello world");
}

#[test]
fn metaspace_never_drops_only_the_sequence_leading_space() {
    let d = Decoder::metaspace('\u{2581}', PrependScheme::Never, true);
    assert_eq!(d.decode(&toks(&["\u{2581}Hello", "\u{2581}world"])), "Hello world");
}

#[test]
fn metaspace_first_behaves_like_always_when_decoding() {
    let d = Decoder::metaspace('\u{2581}', PrependScheme::First, false);
    assert_eq!(d.decode(&toks(&["\u{2581}Hi", "\u{2581}there"])), " Hi there");
}

#[test]
fn metaspace_maps_internal_replacements_to_spaces() {
    let d = Decoder::metaspace('\u{2581}', PrependScheme::Always, false);
    assert_eq!(d.decode(&toks(&["a\u{2581}b"])), "a b");
}

#[test]
fn replace_substitutes_literally_in_each_token() {
    let d = Decoder::replace("_", " ").unwrap();
    assert_eq!(d.decode(&toks(&["Hello", "_World"])), "Hello World");
}

#[test]
fn replace_scans_left_to_right_without_rescanning() {
    let d = Decoder::replace("aa", "b").unwrap();
    assert_eq!(d.decode(&toks(&["aaa"])), "ba");
}

#[test]
fn replace_rejects_empty_pattern() {
    assert!(matches!(Decoder::replace("", "x"), Err(ConstructionError::InvalidPattern)));
}

#[test]
fn strip_trims_from_the_left() {
    let d = Decoder::strip('H', 1, 0);
    assert_eq!(d.decode(&toks(&["Hey", " friend!"])), "ey friend!");
}

#[test]
fn strip_stops_early_when_the_edge_does_not_match() {
    let d = Decoder::strip('x', 5, 0);
    assert_eq!(d.decode(&toks(&["xxy"])), "y");
}

#[test]
fn strip_trims_both_edges_of_a_short_token() {
    let d = Decoder::strip('a', 2, 2);
    assert_eq!(d.decode(&toks(&["aaa"])), "");
}

#[test]
fn strip_with_the_largest_count_trims_the_whole_run() {
    let d = Decoder::strip('a', usize::MAX, usize::MAX);
    assert_eq!(d.decode(&toks(&["aabaa"])), "b");
}

#[test]
fn strip_with_zero_counts_is_identity() {
    let d = Decoder::strip(' ', 0, 0);
    assert_eq!(d.decode(&toks(&[" pad "])), " pad ");
}

#[test]
fn wordpiece_joins_continuations_and_spaces_words() {
    let d = Decoder::wordpiece("##", false).unwrap();
    assert_eq!(d.decode(&toks(&["##uelo", "Ara", "##új", "##o", "No", "##guera"])), "##uelo Araújo Noguera");
}

#[test]
fn wordpiece_cleanup_fixes_punctuation_spacing() {
    let d = Decoder::wordpiece("##", true).unwrap();
    assert_eq!(d.decode(&toks(&["Hey", "friend", "!"])), "Hey friend!");
}

#[test]
fn wordpiece_cleanup_fixes_contractions() {
    let d = Decoder::wordpiece("##", true).unwrap();
    assert_eq!(d.decode(&toks(&["I", "'m", "sure"])), "I'm sure");
}

#[test]
fn sequence_applies_members_in_declared_order() {
    let members = vec![Decoder::metaspace('\u{2581}', PrependScheme::Always, true), Decoder::fuse()];
    let d = Decoder::sequence(members).unwrap();
    assert_eq!(d.decode(&toks(&["\u{2581}Hello", "\u{2581}world"])), " Hello world");
}

#[test]
fn sequence_of_replace_then_fuse() {
    let members = vec![Decoder::replace("_", " ").unwrap(), Decoder::fuse()];
    let d = Decoder::sequence(members).unwrap();
    assert_eq!(d.decode(&toks(&["a_b", "_c"])), "a b c");
}

#[test]
fn nested_sequences_compose() {
    let inner = Decoder::sequence(vec![Decoder::replace("_", " ").unwrap()]).unwrap();
    let d = Decoder::sequence(vec![inner, Decoder::fuse()]).unwrap();
    assert_eq!(d.decode(&toks(&["x_y"])), "x y");
}

#[test]
fn sequence_with_no_members_fails() {
    assert!(matches!(Decoder::sequence(vec![]), Err(ConstructionError::EmptySequence)));
}

#[test]
fn duplicate_decodes_identically_and_independently() {
    let d = Decoder::ctc("<pad>", "|", true).unwrap();
    let copy = d.duplicate();
    let input = toks(&["h", "h", "i", "<pad>", "|", "all ."]);
    assert_eq!(copy.decode(&input), d.decode(&input));
    // the original can be dropped; the copy still works on its own
    drop(d);
    assert_eq!(copy.decode(&input), "hi all.");
}

#[test]
fn sequence_can_own_duplicates_of_borrowed_members() {
    let member = Decoder::replace("_", " ").unwrap();
    let d = Decoder::sequence(vec![member.duplicate(), Decoder::fuse()]).unwrap();
    let input = toks(&["a_b"]);
    assert_eq!(d.decode(&input), "a b");
    assert_eq!(member.decode(&input), "a b");
}

#[test]
fn decode_chain_keeps_intermediate_tokens_separate() {
    let d = Decoder::metaspace('\u{2581}', PrependScheme::Always, true);
    let tokens: Vec<Vec<char>> = vec![
        "\u{2581}Hello".chars().collect(),
        "\u{2581}world".chars().collect(),
    ];
    let out = d.decode_chain(tokens);
    let strings: Vec<String> = out.iter().map(|t| t.iter().collect()).collect();
    assert_eq!(strings, vec![" Hello".to_string(), " world".to_string()]);
}
