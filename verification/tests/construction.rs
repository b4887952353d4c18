//! Each decoder kind can be constructed from its configuration surface;
//! only an invalid configuration is refused.

use detok::{ConstructionError, Decoder, PrependScheme};

#[test]
fn test_bytefallback_decoder_new() {
    let d = Decoder::byte_fallback();
    assert!(matches!(d, Decoder::ByteFallback));
}

#[test]
fn test_bytelevel_decoder_new() {
    let d = Decoder::byte_level();
    assert!(matches!(d, Decoder::ByteLevel));
}

#[test]
fn test_fuse_decoder_new() {
    let d = Decoder::fuse();
    assert!(matches!(d, Decoder::Fuse));
}

#[test]
fn test_bpe_decoder_new() {
    let d = Decoder::bpe("</w>");
    assert!(d.is_ok());
}

#[test]
fn test_ctc_decoder_new() {
    let d = Decoder::ctc("<pad>", "|", true);
    assert!(d.is_ok());
}

#[test]
fn test_metaspace_decoder_new() {
    let d = Decoder::metaspace('\u{2581}', PrependScheme::Always, true);
    assert!(matches!(d, Decoder::Metaspace { .. }));
}

#[test]
fn test_replace_decoder_new() {
    let d = Decoder::replace("_", " ");
    assert!(d.is_ok());
}

#[test]
fn test_strip_decoder_new() {
    let d = Decoder::strip(' ', 1, 0);
    assert!(matches!(d, Decoder::Strip { .. }));
}

#[test]
fn test_wordpiece_decoder_new() {
    let d = Decoder::wordpiece("##", true);
    assert!(d.is_ok());
}

#[test]
fn test_sequence_decoder_new() {
    let metaspace = Decoder::metaspace('\u{2581}', PrependScheme::Always, true);
    let fuse = Decoder::fuse();
    let sequence = Decoder::sequence(vec![metaspace, fuse]);
    assert!(sequence.is_ok());
}

#[test]
fn test_sequence_decoder_with_empty_slice_fails() {
    let sequence = Decoder::sequence(vec![]);
    assert!(matches!(sequence, Err(ConstructionError::EmptySequence)));
}
