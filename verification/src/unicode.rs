//! Executable UTF-8 decoding, verified against the `vstd::utf8`
//! specification, plus the conversions between strings and character
//! vectors used at the crate boundary.

use vstd::prelude::*;
use vstd::string::StrSliceExecFns;
use vstd::utf8::*;

verus! {

/// The character substituted for bytes that do not decode as UTF-8.
pub open spec fn replacement_char() -> char {
    '\u{FFFD}'
}

/// Relies on std's `char::from_u32`: it returns the scalar as a `char`
/// exactly when `u` is a Unicode scalar value (not a surrogate, at most
/// 0x10FFFF), and `None` otherwise.
#[verifier::external_body]
fn char_from_u32(u: u32) -> (r: Option<char>)
    ensures
        r is Some <==> is_scalar(u),
        is_scalar(u) ==> r == Some(u as char),
{
    char::from_u32(u)
}

/// Relies on std's `FromIterator<char> for String`: collecting characters
/// yields the string with exactly those characters.
#[verifier::external_body]
pub fn chars_to_string(cs: &Vec<char>) -> (r: String)
    ensures
        r@ == cs@,
{
    cs.iter().collect()
}

/// Decodes the first scalar of `bytes@.skip(i)`, returning the character
/// and the width of its encoding, or `None` when no well-formed scalar
/// encoding starts there.
fn first_scalar_at(bytes: &Vec<u8>, i: usize) -> (r: Option<(char, usize)>)
    requires
        i < bytes@.len(),
    ensures
        r is Some <==> valid_first_scalar(bytes@.skip(i as int)),
        r matches Some((c, w)) ==> {
            &&& valid_first_scalar(bytes@.skip(i as int))
            &&& w == length_of_first_scalar(bytes@.skip(i as int))
            &&& c as u32 == decode_first_scalar(bytes@.skip(i as int))
            &&& 1 <= w && i + w <= bytes@.len()
        },
{
    let ghost rest = bytes@.skip(i as int);
    let n = bytes.len();
    let b0 = bytes[i];
    assert(rest[0] == bytes@[i as int]);
    if b0 < 0x80 {
        let cp = (b0 & 0x7f) as u32;
        assert(is_leading_byte_width_1(rest[0]));
        assert(cp == decode_first_codepoint(rest));
        assert(is_scalar(cp)) by (bit_vector)
            requires
                b0 < 0x80 && cp == (b0 & 0x7f) as u32,
        ;
        let c = char_from_u32(cp);
        match c {
            Some(c) => Some((c, 1)),
            None => {
                proof {
                    assert(false);
                }
                None
            },
        }
    } else if 0xc0 <= b0 && b0 <= 0xdf {
        if n - i < 2 {
            assert(!valid_leading_and_continuation_bytes_first_codepoint(rest));
            return None;
        }
        let b1 = bytes[i + 1];
        assert(rest[1] == bytes@[i + 1]);
        if !(0x80 <= b1 && b1 <= 0xbf) {
            assert(!valid_leading_and_continuation_bytes_first_codepoint(rest));
            return None;
        }
        let cp = (((b0 & 0x1f) as u32) << 6u32) | ((b1 & 0x3f) as u32);
        assert(cp == decode_first_codepoint(rest));
        if cp < 0x80 {
            assert(!not_overlong_encoding(decode_first_codepoint(rest), 2));
            return None;
        }
        assert(cp <= 0x7ff) by (bit_vector)
            requires
                cp == (((b0 & 0x1f) as u32) << 6u32) | ((b1 & 0x3f) as u32),
        ;
        let c = char_from_u32(cp);
        match c {
            Some(c) => Some((c, 2)),
            None => {
                proof {
                    assert(false);
                }
                None
            },
        }
    } else if 0xe0 <= b0 && b0 <= 0xef {
        if n - i < 3 {
            assert(!valid_leading_and_continuation_bytes_first_codepoint(rest));
            return None;
        }
        let b1 = bytes[i + 1];
        let b2 = bytes[i + 2];
        assert(rest[1] == bytes@[i + 1] && rest[2] == bytes@[i + 2]);
        if !(0x80 <= b1 && b1 <= 0xbf) || !(0x80 <= b2 && b2 <= 0xbf) {
            assert(!valid_leading_and_continuation_bytes_first_codepoint(rest));
            return None;
        }
        let cp = (((b0 & 0x0f) as u32) << 12u32) | (((b1 & 0x3f) as u32) << 6u32) | ((b2
            & 0x3f) as u32);
        assert(cp == decode_first_codepoint(rest));
        if cp < 0x800 {
            assert(!not_overlong_encoding(decode_first_codepoint(rest), 3));
            return None;
        }
        if 0xd800 <= cp && cp <= 0xdfff {
            assert(!not_surrogate(decode_first_codepoint(rest)));
            return None;
        }
        assert(cp <= 0xffff) by (bit_vector)
            requires
                cp == (((b0 & 0x0f) as u32) << 12u32) | (((b1 & 0x3f) as u32) << 6u32) | ((b2
                    & 0x3f) as u32),
        ;
        let c = char_from_u32(cp);
        match c {
            Some(c) => Some((c, 3)),
            None => {
                proof {
                    assert(false);
                }
                None
            },
        }
    } else if 0xf0 <= b0 && b0 <= 0xf7 {
        if n - i < 4 {
            assert(!valid_leading_and_continuation_bytes_first_codepoint(rest));
            return None;
        }
        let b1 = bytes[i + 1];
        let b2 = bytes[i + 2];
        let b3 = bytes[i + 3];
        assert(rest[1] == bytes@[i + 1] && rest[2] == bytes@[i + 2] && rest[3] == bytes@[i + 3]);
        if !(0x80 <= b1 && b1 <= 0xbf) || !(0x80 <= b2 && b2 <= 0xbf) || !(0x80 <= b3 && b3
            <= 0xbf) {
            assert(!valid_leading_and_continuation_bytes_first_codepoint(rest));
            return None;
        }
        let cp = (((b0 & 0x07) as u32) << 18u32) | (((b1 & 0x3f) as u32) << 12u32) | (((b2
            & 0x3f) as u32) << 6u32) | ((b3 & 0x3f) as u32);
        assert(cp == decode_first_codepoint(rest));
        if cp < 0x10000 || cp > 0x10ffff {
            assert(!not_overlong_encoding(decode_first_codepoint(rest), 4));
            return None;
        }
        let c = char_from_u32(cp);
        match c {
            Some(c) => Some((c, 4)),
            None => {
                proof {
                    assert(false);
                }
                None
            },
        }
    } else {
        assert(!valid_leading_and_continuation_bytes_first_codepoint(rest));
        None
    }
}

proof fn lemma_first_scalar_len(bytes: Seq<u8>)
    requires
        valid_first_scalar(bytes),
    ensures
        1 <= length_of_first_scalar(bytes) <= bytes.len(),
        pop_first_scalar(bytes).len() < bytes.len(),
{
    assert(valid_leading_and_continuation_bytes_first_codepoint(bytes));
}

/// UTF-8 decoding that substitutes [`replacement_char`] for each byte at
/// which no well-formed scalar encoding starts, then resumes at the next
/// byte.
pub open spec fn lossy_decode(bytes: Seq<u8>) -> Seq<char>
    decreases bytes.len(),
    via lossy_decode_decreases
{
    if bytes.len() == 0 {
        seq![]
    } else if valid_first_scalar(bytes) {
        seq![decode_first_scalar(bytes) as char] + lossy_decode(pop_first_scalar(bytes))
    } else {
        seq![replacement_char()] + lossy_decode(bytes.drop_first())
    }
}

#[via_fn]
proof fn lossy_decode_decreases(bytes: Seq<u8>) {
    if bytes.len() != 0 && valid_first_scalar(bytes) {
        lemma_first_scalar_len(bytes);
    }
}

/// Decodes a byte vector as UTF-8, returning `None` exactly when the bytes
/// are not a valid UTF-8 encoding.
pub fn utf8_strict(bytes: &Vec<u8>) -> (r: Option<Vec<char>>)
    ensures
        r is Some <==> valid_utf8(bytes@),
        r matches Some(cs) ==> cs@ == decode_utf8(bytes@),
{
    let mut res: Vec<char> = Vec::new();
    let mut i: usize = 0;
    proof {
        assert(bytes@.skip(0) =~= bytes@);
    }
    while i < bytes.len()
        invariant
            0 <= i <= bytes@.len(),
            valid_utf8(bytes@) == valid_utf8(bytes@.skip(i as int)),
            valid_utf8(bytes@) ==> decode_utf8(bytes@) == res@ + decode_utf8(
                bytes@.skip(i as int),
            ),
        decreases bytes@.len() - i,
    {
        let ghost tail = bytes@.skip(i as int);
        match first_scalar_at(bytes, i) {
            Some((c, w)) => {
                proof {
                    lemma_first_scalar_len(tail);
                    assert(pop_first_scalar(tail) =~= bytes@.skip(i + w));
                    char_u32_cast(c, decode_first_scalar(tail));
                    if valid_utf8(bytes@) {
                        assert(decode_utf8(tail) == seq![c] + decode_utf8(bytes@.skip(i + w)));
                    }
                }
                let ghost prev = res@;
                res.push(c);
                proof {
                    assert(res@ =~= prev + seq![c]);
                    if valid_utf8(bytes@) {
                        assert(prev + (seq![c] + decode_utf8(bytes@.skip(i + w))) =~= (prev
                            + seq![c]) + decode_utf8(bytes@.skip(i + w)));
                    }
                }
                i += w;
            },
            None => {
                assert(!valid_utf8(tail));
                return None;
            },
        }
    }
    proof {
        assert(bytes@.skip(bytes@.len() as int) =~= Seq::<u8>::empty());
        assert(valid_utf8(Seq::<u8>::empty()));
        assert(res@ + Seq::<char>::empty() =~= res@);
    }
    Some(res)
}

/// Decodes a byte vector as UTF-8 with replacement-character substitution,
/// following [`lossy_decode`].
pub fn utf8_lossy(bytes: &Vec<u8>) -> (r: Vec<char>)
    ensures
        r@ == lossy_decode(bytes@),
{
    let mut res: Vec<char> = Vec::new();
    let mut i: usize = 0;
    proof {
        assert(bytes@.skip(0) =~= bytes@);
        assert(Seq::<char>::empty() + lossy_decode(bytes@) =~= lossy_decode(bytes@));
    }
    while i < bytes.len()
        invariant
            0 <= i <= bytes@.len(),
            lossy_decode(bytes@) == res@ + lossy_decode(bytes@.skip(i as int)),
        decreases bytes@.len() - i,
    {
        let ghost tail = bytes@.skip(i as int);
        let ghost prev = res@;
        match first_scalar_at(bytes, i) {
            Some((c, w)) => {
                proof {
                    lemma_first_scalar_len(tail);
                    assert(pop_first_scalar(tail) =~= bytes@.skip(i + w));
                    char_u32_cast(c, decode_first_scalar(tail));
                    assert(lossy_decode(tail) == seq![c] + lossy_decode(bytes@.skip(i + w)));
                }
                res.push(c);
                proof {
                    assert(res@ =~= prev + seq![c]);
                    assert(prev + (seq![c] + lossy_decode(bytes@.skip(i + w))) =~= (prev + seq![c])
                        + lossy_decode(bytes@.skip(i + w)));
                }
                i += w;
            },
            None => {
                proof {
                    assert(tail.drop_first() =~= bytes@.skip(i + 1));
                    assert(lossy_decode(tail) == seq![replacement_char()] + lossy_decode(
                        bytes@.skip(i + 1),
                    ));
                }
                res.push('\u{FFFD}');
                proof {
                    assert(res@ =~= prev + seq![replacement_char()]);
                    assert(prev + (seq![replacement_char()] + lossy_decode(bytes@.skip(i + 1)))
                        =~= (prev + seq![replacement_char()]) + lossy_decode(bytes@.skip(i + 1)));
                }
                i += 1;
            },
        }
    }
    proof {
        assert(bytes@.skip(bytes@.len() as int) =~= Seq::<u8>::empty());
        assert(res@ + Seq::<char>::empty() =~= res@);
    }
    res
}

/// The characters of a string slice, recovered from its UTF-8 bytes.
pub fn str_to_chars(s: &str) -> (r: Vec<char>)
    ensures
        r@ == s@,
{
    let bytes = s.as_bytes_vec();
    proof {
        encode_utf8_valid_utf8(s@);
        encode_utf8_decode_utf8(s@);
    }
    match utf8_strict(&bytes) {
        Some(cs) => cs,
        None => {
            proof {
                assert(false);
            }
            Vec::new()
        },
    }
}

} // verus!
