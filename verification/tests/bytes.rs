use detok::Decoder;

fn toks(v: &[&str]) -> Vec<String> {
    v.iter().map(|s| s.to_string()).collect()
}

/// The byte-escape spelling an upstream byte-level vocabulary uses.
fn escape_bytes(text: &str) -> Vec<String> {
    text.as_bytes().iter().map(|b| format!("<0x{:02X}>", b)).collect()
}

#[test]
fn byte_fallback_decodes_ascii_bytes() {
    let d = Decoder::byte_fallback();
    assert_eq!(d.decode(&toks(&["<0x61>", "<0x62>"])), "ab");
}

#[test]
fn byte_fallback_round_trips_multibyte_text() {
    let d = Decoder::byte_fallback();
    let text = "d\u{e9}j\u{e0} vu \u{2581}ok";
    assert_eq!(d.decode(&escape_bytes(text)), text);
}

#[test]
fn byte_fallback_accepts_lowercase_hex() {
    let d = Decoder::byte_fallback();
    assert_eq!(d.decode(&toks(&["<0x6a>", "<0x6B>"])), "jk");
}

#[test]
fn byte_fallback_passes_ordinary_tokens_through() {
    let d = Decoder::byte_fallback();
    assert_eq!(d.decode(&toks(&["My", " na", "me"])), "My name");
}

#[test]
fn byte_fallback_yields_one_replacement_char_per_invalid_byte() {
    let d = Decoder::byte_fallback();
    assert_eq!(d.decode(&toks(&["<0xFF>", "<0xFE>"])), "\u{FFFD}\u{FFFD}");
}

#[test]
fn byte_fallback_truncated_run_counts_bytes_not_tokens() {
    // two bytes of a three-byte encoding: the whole run is invalid,
    // so two replacement characters, one per byte
    let d = Decoder::byte_fallback();
    assert_eq!(d.decode(&toks(&["<0xE2>", "<0x96>"])), "\u{FFFD}\u{FFFD}");
}

#[test]
fn byte_fallback_embedded_invalid_run_decodes_on_its_own() {
    let d = Decoder::byte_fallback();
    assert_eq!(d.decode(&toks(&["x", "<0xFF>", "y"])), "x\u{FFFD}y");
}

#[test]
fn byte_fallback_flushes_pending_bytes_before_a_plain_token() {
    let d = Decoder::byte_fallback();
    assert_eq!(d.decode(&toks(&["<0x61>", "x", "<0x62>"])), "axb");
}

#[test]
fn byte_fallback_ignores_malformed_escape_shapes() {
    let d = Decoder::byte_fallback();
    assert_eq!(d.decode(&toks(&["<0xZZ>", "<0x1>"])), "<0xZZ><0x1>");
}

#[test]
fn byte_level_maps_the_space_alias() {
    // U+0120 stands for the space byte in the byte-level alphabet
    let d = Decoder::byte_level();
    assert_eq!(d.decode(&toks(&["Hello", "\u{120}world"])), "Hello world");
}

#[test]
fn byte_level_reassembles_multibyte_characters_across_tokens() {
    // 0xC3 maps from U+00C3 and 0xA9 from U+00A9; together they encode é
    let d = Decoder::byte_level();
    assert_eq!(d.decode(&toks(&["\u{c3}", "\u{a9}"])), "\u{e9}");
}

#[test]
fn byte_level_maps_the_newline_alias() {
    // U+010A stands for the newline byte
    let d = Decoder::byte_level();
    assert_eq!(d.decode(&toks(&["a\u{10a}b"])), "a\nb");
}

#[test]
fn byte_level_substitutes_replacement_char_for_invalid_utf8() {
    // 0xFF alone is not valid UTF-8; its alias is itself (0xFF = ÿ is in
    // the printable range), so decoding yields the replacement character
    let d = Decoder::byte_level();
    assert_eq!(d.decode(&toks(&["\u{ff}"])), "\u{FFFD}");
}
