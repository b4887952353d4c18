//! The decoder variant: a closed tagged union over every decoding strategy,
//! with a combinator for chaining them, smart constructors that validate
//! configuration, and the top-level decoding entry point.

use crate::prim::{
    bpe_chain, bpe_exec, bpe_token, byte_escape_tokens, byte_fallback_chain, byte_fallback_exec,
    byte_fallback_from, byte_level_chain, byte_level_exec, ctc_chain, ctc_exec, ctc_map,
    flush_run, fuse_chain, fuse_exec, is_byte_token, lemma_byte_fallback_absorbs_run,
    lemma_byte_fallback_all_bytes, metaspace_chain, metaspace_exec, replace_chain, replace_exec,
    strip_chain, strip_exec, strip_token, wordpiece_chain, wordpiece_exec, wordpiece_token,
};
use crate::text::{
    cleanup_spec, copy_chars, dedup_adjacent, dv, join_exec, lemma_dv_push, match_at,
};
use crate::unicode::{chars_to_string, replacement_char, str_to_chars};
use crate::ConstructionError;
use vstd::prelude::*;
use vstd::seq_lib::*;
use vstd::utf8::{
    decode_utf8, encode_utf8, encode_utf8_decode_utf8, encode_utf8_valid_utf8, valid_utf8,
};

verus! {

/// Where Metaspace inserts a leading space: before the whole output
/// (`Always`, `First`) or nowhere (`Never`). `First` differs from `Always`
/// only on the encoding side; both keep the sequence-leading space when
/// decoding.
#[derive(Clone, Copy, PartialEq, Eq, Structural, Debug)]
pub enum PrependScheme {
    Always,
    First,
    Never,
}

/// A text-reconstruction strategy over a stream of tokens. The variant set
/// is closed and dispatch is exhaustive; values are immutable once
/// constructed, and a `Sequence` owns its members outright, so no decoder
/// shares mutable state with another.
pub enum Decoder {
    /// `<0xNN>` tokens gathered into byte runs and decoded as UTF-8.
    ByteFallback,
    /// Characters mapped through the byte-level alphabet back to bytes,
    /// decoded as UTF-8 with one replacement character substituted per byte
    /// at which no scalar encoding starts.
    ByteLevel,
    /// An end-of-word suffix removed; where it stood, a space follows.
    Bpe { suffix: Vec<char> },
    /// Duplicate collapse, pad dropping, delimiter-to-space replacement.
    Ctc { pad: Vec<char>, delimiter: Vec<char>, cleanup: bool },
    /// All tokens fused into a single token.
    Fuse,
    /// The replacement character mapped back to a space. The `split` flag
    /// records whether tokens are split at the replacement character into
    /// separate pieces before rejoining; since decoding concatenates every
    /// piece, the reconstructed text is the same either way, so the flag is
    /// carried as configuration only.
    Metaspace { replacement: char, scheme: PrependScheme, split: bool },
    /// A literal pattern substituted in each token independently.
    Replace { pattern: Vec<char>, content: Vec<char> },
    /// A bounded count of one character trimmed from each token's edges.
    Strip { content_char: char, left: usize, right: usize },
    /// A continuation prefix removed; other tokens preceded by a space.
    WordPiece { prefix: Vec<char>, cleanup: bool },
    /// Each member applied in order, feeding the next.
    Sequence { members: Vec<Decoder> },
}

/// What one decoding pass produces from the given token views.
pub open spec fn chain_spec(d: Decoder, ts: Seq<Seq<char>>) -> Seq<Seq<char>>
    decreases d, 0int,
{
    match d {
        Decoder::ByteFallback => byte_fallback_chain(ts),
        Decoder::ByteLevel => byte_level_chain(ts),
        Decoder::Bpe { suffix } => bpe_chain(ts, suffix@),
        Decoder::Ctc { pad, delimiter, cleanup } => ctc_chain(ts, pad@, delimiter@, cleanup),
        Decoder::Fuse => fuse_chain(ts),
        Decoder::Metaspace { replacement, scheme, .. } => metaspace_chain(
            ts,
            replacement,
            scheme == PrependScheme::Never,
        ),
        Decoder::Replace { pattern, content } => replace_chain(ts, pattern@, content@),
        Decoder::Strip { content_char, left, right } => strip_chain(
            ts,
            content_char,
            left as int,
            right as int,
        ),
        Decoder::WordPiece { prefix, cleanup } => wordpiece_chain(ts, prefix@, cleanup),
        Decoder::Sequence { members } => members_chain_from(members@, 0, ts),
    }
}

/// The members from position `k` on, applied in declared order: the output
/// of member `k` is the input of member `k + 1`.
pub open spec fn members_chain_from(ms: Seq<Decoder>, k: int, ts: Seq<Seq<char>>) -> Seq<
    Seq<char>,
>
    decreases ms, ms.len() - k + 1,
{
    if k < 0 || k >= ms.len() {
        ts
    } else {
        members_chain_from(ms, k + 1, chain_spec(ms[k], ts))
    }
}

/// The decoded text: the final pass's tokens, concatenated.
pub open spec fn decode_spec(d: Decoder, ts: Seq<Seq<char>>) -> Seq<char> {
    chain_spec(d, ts).flatten()
}

/// The same decoder configuration, field for field: the same kind, with
/// markers, characters and flags of equal content, and equivalent members.
pub open spec fn equiv(a: Decoder, b: Decoder) -> bool
    decreases a, 0int,
{
    match a {
        Decoder::ByteFallback => b matches Decoder::ByteFallback,
        Decoder::ByteLevel => b matches Decoder::ByteLevel,
        Decoder::Fuse => b matches Decoder::Fuse,
        Decoder::Bpe { suffix: sa } => b matches Decoder::Bpe { suffix: sb } && sa@ == sb@,
        Decoder::Ctc { pad: pa, delimiter: da, cleanup: ca } => b matches Decoder::Ctc {
            pad: pb,
            delimiter: db,
            cleanup: cb,
        } && pa@ == pb@ && da@ == db@ && ca == cb,
        Decoder::Metaspace { replacement: ra, scheme: ca, split: pa } => b matches Decoder::Metaspace {
            replacement: rb,
            scheme: cb,
            split: pb,
        } && ra == rb && ca == cb && pa == pb,
        Decoder::Replace { pattern: pa, content: ca } => b matches Decoder::Replace {
            pattern: pb,
            content: cb,
        } && pa@ == pb@ && ca@ == cb@,
        Decoder::Strip { content_char: ca, left: la, right: ra } => b matches Decoder::Strip {
            content_char: cb,
            left: lb,
            right: rb,
        } && ca == cb && la == lb && ra == rb,
        Decoder::WordPiece { prefix: pa, cleanup: ca } => b matches Decoder::WordPiece {
            prefix: pb,
            cleanup: cb,
        } && pa@ == pb@ && ca == cb,
        Decoder::Sequence { members: ma } => b matches Decoder::Sequence { members: mb }
            && ma@.len() == mb@.len() && (forall|i: int|
            0 <= i < ma@.len() ==> equiv(#[trigger] ma@[i], mb@[i])),
    }
}

impl Decoder {
    /// A valid configuration: the markers that decoding compares against or
    /// searches for are non-empty, and a sequence has at least one member.
    /// The smart constructors reject everything else.
    pub open spec fn wf(self) -> bool
        decreases self,
    {
        match self {
            Decoder::Bpe { suffix } => suffix@.len() > 0,
            Decoder::Ctc { pad, delimiter, .. } => pad@.len() > 0 && delimiter@.len() > 0,
            Decoder::Replace { pattern, .. } => pattern@.len() > 0,
            Decoder::WordPiece { prefix, .. } => prefix@.len() > 0,
            Decoder::Sequence { members } => members@.len() > 0 && (forall|i: int|
                0 <= i < members@.len() ==> (#[trigger] members@[i]).wf()),
            _ => true,
        }
    }

    /// One decoding pass: the token list this decoder makes of `tokens`.
    /// Intermediate passes stay composable; [`Self::decode`] joins the
    /// final pass.
    pub fn decode_chain(&self, tokens: Vec<Vec<char>>) -> (r: Vec<Vec<char>>)
        ensures
            dv(r@) == chain_spec(*self, dv(tokens@)),
        decreases *self,
    {
        match self {
            Decoder::ByteFallback => byte_fallback_exec(&tokens),
            Decoder::ByteLevel => byte_level_exec(&tokens),
            Decoder::Bpe { suffix } => bpe_exec(&tokens, suffix),
            Decoder::Ctc { pad, delimiter, cleanup } => ctc_exec(&tokens, pad, delimiter, *cleanup),
            Decoder::Fuse => fuse_exec(&tokens),
            Decoder::Metaspace { replacement, scheme, .. } => metaspace_exec(
                &tokens,
                *replacement,
                *scheme == PrependScheme::Never,
            ),
            Decoder::Replace { pattern, content } => replace_exec(&tokens, pattern, content),
            Decoder::Strip { content_char, left, right } => strip_exec(&tokens, *content_char, *left, *right),
            Decoder::WordPiece { prefix, cleanup } => wordpiece_exec(&tokens, prefix, *cleanup),
            Decoder::Sequence { members } => {
                let ghost ts0 = dv(tokens@);
                let mut cur = tokens;
                let mut k: usize = 0;
                while k < members.len()
                    invariant
                        0 <= k <= members@.len(),
                        members_chain_from(members@, k as int, dv(cur@)) == members_chain_from(
                            members@,
                            0,
                            ts0,
                        ),
                        *self == (Decoder::Sequence { members: *members }),
                    decreases members@.len() - k,
                {
                    proof {
                        assert(members_chain_from(members@, k as int, dv(cur@))
                            == members_chain_from(
                            members@,
                            k + 1,
                            chain_spec(members@[k as int], dv(cur@)),
                        ));
                        assert(decreases_to!(*self => (*self)->Sequence_members));
                        assert((*self)->Sequence_members == *members);
                        assert(decreases_to!(*members => members@[k as int]));
                    }
                    cur = members[k].decode_chain(cur);
                    k += 1;
                }
                cur
            },
        }
    }

    /// The reconstructed text for a finished token list: every pass of this
    /// decoder applied, then the resulting tokens concatenated.
    pub fn decode(&self, tokens: &Vec<String>) -> (r: String)
        ensures
            r@ == decode_spec(*self, tokens.deep_view()),
    {
        let mut ts: Vec<Vec<char>> = Vec::new();
        let mut i: usize = 0;
        proof {
            assert(dv(ts@) =~= tokens.deep_view().subrange(0, 0));
        }
        while i < tokens.len()
            invariant
                0 <= i <= tokens@.len(),
                dv(ts@) == tokens.deep_view().subrange(0, i as int),
            decreases tokens@.len() - i,
        {
            let item = str_to_chars(tokens[i].as_str());
            let ghost told = ts@;
            ts.push(item);
            proof {
                lemma_dv_push(told, item);
                assert(tokens.deep_view()[i as int] == tokens@[i as int]@);
                assert(tokens.deep_view().subrange(0, i as int).push(
                    tokens.deep_view()[i as int],
                ) =~= tokens.deep_view().subrange(0, i + 1 as int));
            }
            i += 1;
        }
        proof {
            assert(tokens.deep_view().subrange(0, tokens.deep_view().len() as int)
                =~= tokens.deep_view());
        }
        let chained = self.decode_chain(ts);
        let joined = join_exec(&chained);
        chars_to_string(&joined)
    }

    /// An independent copy of this decoder, sharing no state with it:
    /// decoder values have value semantics, so a sequence can own copies of
    /// members a caller keeps. The copy is [`equiv`] to the original, and
    /// by [`lemma_equiv_chain`] decodes every input identically.
    pub fn duplicate(&self) -> (r: Decoder)
        ensures
            equiv(r, *self),
        decreases *self,
    {
        match self {
            Decoder::ByteFallback => Decoder::ByteFallback,
            Decoder::ByteLevel => Decoder::ByteLevel,
            Decoder::Fuse => Decoder::Fuse,
            Decoder::Bpe { suffix } => Decoder::Bpe { suffix: copy_chars(suffix) },
            Decoder::Ctc { pad, delimiter, cleanup } => Decoder::Ctc {
                pad: copy_chars(pad),
                delimiter: copy_chars(delimiter),
                cleanup: *cleanup,
            },
            Decoder::Metaspace { replacement, scheme, split } => Decoder::Metaspace {
                replacement: *replacement,
                scheme: *scheme,
                split: *split,
            },
            Decoder::Replace { pattern, content } => Decoder::Replace {
                pattern: copy_chars(pattern),
                content: copy_chars(content),
            },
            Decoder::Strip { content_char, left, right } => Decoder::Strip {
                content_char: *content_char,
                left: *left,
                right: *right,
            },
            Decoder::WordPiece { prefix, cleanup } => Decoder::WordPiece {
                prefix: copy_chars(prefix),
                cleanup: *cleanup,
            },
            Decoder::Sequence { members } => {
                let mut copies: Vec<Decoder> = Vec::new();
                let mut k: usize = 0;
                while k < members.len()
                    invariant
                        0 <= k <= members@.len(),
                        copies@.len() == k,
                        forall|i: int|
                            0 <= i < k ==> equiv(#[trigger] copies@[i], members@[i]),
                        *self == (Decoder::Sequence { members: *members }),
                    decreases members@.len() - k,
                {
                    proof {
                        assert(decreases_to!(*self => (*self)->Sequence_members));
                        assert((*self)->Sequence_members == *members);
                        assert(decreases_to!(*members => members@[k as int]));
                    }
                    let c = members[k].duplicate();
                    copies.push(c);
                    k += 1;
                }
                Decoder::Sequence { members: copies }
            },
        }
    }

    /// A ByteFallback decoder.
    pub fn byte_fallback() -> (d: Decoder)
        ensures
            d == Decoder::ByteFallback,
            d.wf(),
    {
        Decoder::ByteFallback
    }

    /// A ByteLevel decoder.
    pub fn byte_level() -> (d: Decoder)
        ensures
            d == Decoder::ByteLevel,
            d.wf(),
    {
        Decoder::ByteLevel
    }

    /// A Fuse decoder.
    pub fn fuse() -> (d: Decoder)
        ensures
            d == Decoder::Fuse,
            d.wf(),
    {
        Decoder::Fuse
    }

    /// A BPE suffix decoder; the end-of-word suffix must not be empty.
    pub fn bpe(suffix: &str) -> (r: Result<Decoder, ConstructionError>)
        ensures
            r is Ok <==> suffix@.len() > 0,
            r matches Ok(d) ==> d matches Decoder::Bpe { suffix: s } && s@ == suffix@ && d.wf(),
            r is Err ==> r == Err::<Decoder, ConstructionError>(ConstructionError::EmptyMarker),
    {
        let s = str_to_chars(suffix);
        if s.len() == 0 {
            Err(ConstructionError::EmptyMarker)
        } else {
            Ok(Decoder::Bpe { suffix: s })
        }
    }

    /// A CTC decoder; neither the pad token nor the word delimiter may be
    /// empty.
    pub fn ctc(pad: &str, word_delimiter: &str, cleanup: bool) -> (r: Result<
        Decoder,
        ConstructionError,
    >)
        ensures
            r is Ok <==> (pad@.len() > 0 && word_delimiter@.len() > 0),
            r matches Ok(d) ==> d matches Decoder::Ctc { pad: p, delimiter: w, cleanup: c } && p@
                == pad@ && w@ == word_delimiter@ && c == cleanup && d.wf(),
            r is Err ==> r == Err::<Decoder, ConstructionError>(ConstructionError::EmptyMarker),
    {
        let p = str_to_chars(pad);
        let w = str_to_chars(word_delimiter);
        if p.len() == 0 || w.len() == 0 {
            Err(ConstructionError::EmptyMarker)
        } else {
            Ok(Decoder::Ctc { pad: p, delimiter: w, cleanup })
        }
    }

    /// A Metaspace decoder over a single replacement character.
    pub fn metaspace(replacement: char, scheme: PrependScheme, split: bool) -> (d: Decoder)
        ensures
            d == (Decoder::Metaspace { replacement, scheme, split }),
            d.wf(),
    {
        Decoder::Metaspace { replacement, scheme, split }
    }

    /// A Replace decoder over a literal pattern; the pattern must not be
    /// empty, since the empty pattern matches nothing it could replace.
    pub fn replace(pattern: &str, content: &str) -> (r: Result<Decoder, ConstructionError>)
        ensures
            r is Ok <==> pattern@.len() > 0,
            r matches Ok(d) ==> d matches Decoder::Replace { pattern: p, content: c } && p@
                == pattern@ && c@ == content@ && d.wf(),
            r is Err ==> r == Err::<Decoder, ConstructionError>(ConstructionError::InvalidPattern),
    {
        let p = str_to_chars(pattern);
        let c = str_to_chars(content);
        if p.len() == 0 {
            Err(ConstructionError::InvalidPattern)
        } else {
            Ok(Decoder::Replace { pattern: p, content: c })
        }
    }

    /// A Strip decoder: up to `left` and `right` copies of `content`
    /// trimmed from each token's edges (best effort, never an error).
    pub fn strip(content_char: char, left: usize, right: usize) -> (d: Decoder)
        ensures
            d == (Decoder::Strip { content_char, left, right }),
            d.wf(),
    {
        Decoder::Strip { content_char, left, right }
    }

    /// A WordPiece decoder over a continuation prefix; the prefix must not
    /// be empty.
    pub fn wordpiece(prefix: &str, cleanup: bool) -> (r: Result<Decoder, ConstructionError>)
        ensures
            r is Ok <==> prefix@.len() > 0,
            r matches Ok(d) ==> d matches Decoder::WordPiece { prefix: p, cleanup: c } && p@
                == prefix@ && c == cleanup && d.wf(),
            r is Err ==> r == Err::<Decoder, ConstructionError>(ConstructionError::EmptyMarker),
    {
        let p = str_to_chars(prefix);
        if p.len() == 0 {
            Err(ConstructionError::EmptyMarker)
        } else {
            Ok(Decoder::WordPiece { prefix: p, cleanup })
        }
    }

    /// A Sequence combinator over the given members, applied in order;
    /// fails exactly when no member is given — an empty pipeline has no
    /// defined output and never silently becomes the identity. Members are
    /// decoder values, so each is valid by construction.
    pub fn sequence(members: Vec<Decoder>) -> (r: Result<Decoder, ConstructionError>)
        ensures
            r is Ok <==> members@.len() > 0,
            r matches Ok(d) ==> d == (Decoder::Sequence { members }),
            r is Err ==> r == Err::<Decoder, ConstructionError>(ConstructionError::EmptySequence),
            (members@.len() > 0 && (forall|i: int|
                0 <= i < members@.len() ==> (#[trigger] members@[i]).wf())) ==> (r matches Ok(d)
                && d.wf()),
    {
        if members.len() == 0 {
            Err(ConstructionError::EmptySequence)
        } else {
            Ok(Decoder::Sequence { members })
        }
    }
}

/// At most one token, and every token empty: what the empty input can have
/// become after any number of decoding passes.
spec fn blank(ts: Seq<Seq<char>>) -> bool {
    ts.len() <= 1 && (forall|i: int| 0 <= i < ts.len() ==> (#[trigger] ts[i]).len() == 0)
}

proof fn lemma_chain_blank(d: Decoder, ts: Seq<Seq<char>>)
    requires
        d.wf(),
        blank(ts),
    ensures
        blank(chain_spec(d, ts)),
    decreases d, 0int,
{
    match d {
        Decoder::ByteFallback => {
            let pe = Seq::<u8>::empty();
            let te = Seq::<Seq<char>>::empty();
            assert(pe =~= seq![]);
            assert(byte_fallback_from(te, pe) == flush_run(pe));
            assert(flush_run(pe) =~= te);
            assert(byte_fallback_chain(ts) == byte_fallback_from(ts, pe));
            if ts.len() == 1 {
                assert(!is_byte_token(ts[0]));
                assert(ts.drop_first() =~= te);
                assert(byte_fallback_from(ts, pe) == flush_run(pe) + seq![ts[0]]
                    + byte_fallback_from(ts.drop_first(), pe));
                assert(byte_fallback_from(ts, pe) =~= seq![ts[0]]);
            } else {
                assert(ts.len() == 0);
                assert(ts =~= te);
            }
        },
        Decoder::ByteLevel => {
            if ts.len() == 1 {
                ts.lemma_flatten_one_element();
                assert(ts.flatten() == ts[0]);
            } else {
                assert(ts.len() == 0);
            }
        },
        Decoder::Bpe { suffix } => {
            if ts.len() == 1 {
                assert(forall|i: int| !match_at(ts[0], suffix@, i));
                assert(chain_spec(d, ts)[0] == bpe_token(ts[0], suffix@, true));
            }
        },
        Decoder::Ctc { pad, delimiter, cleanup } => {
            let te = Seq::<Seq<char>>::empty();
            let dd = dedup_adjacent(ts);
            assert(ctc_map(te, pad@, delimiter@, cleanup) =~= te);
            if ts.len() == 1 {
                assert(ts.skip(1) =~= te);
                assert(dedup_adjacent(te) =~= te);
                assert(dd == seq![ts[0]] + dedup_adjacent(ts.skip(1)));
                assert(dd =~= seq![ts[0]]);
                assert(dd.drop_first() =~= te);
                let rest = ctc_map(dd.drop_first(), pad@, delimiter@, cleanup);
                assert(rest =~= te);
                if dd[0] == pad@ {
                    assert(ctc_map(dd, pad@, delimiter@, cleanup) == rest);
                } else if dd[0] == delimiter@ {
                    assert(delimiter@.len() > 0 && dd[0].len() == 0);
                    assert(false);
                } else if cleanup {
                    assert(cleanup_spec(dd[0]) =~= Seq::<char>::empty());
                    assert(ctc_map(dd, pad@, delimiter@, cleanup) == seq![cleanup_spec(dd[0])]
                        + rest);
                    assert(ctc_map(dd, pad@, delimiter@, cleanup) =~= seq![cleanup_spec(dd[0])]);
                } else {
                    assert(ctc_map(dd, pad@, delimiter@, cleanup) == seq![dd[0]] + rest);
                    assert(ctc_map(dd, pad@, delimiter@, cleanup) =~= seq![dd[0]]);
                }
            } else {
                assert(ts.len() == 0);
                assert(ts =~= te);
                assert(dedup_adjacent(te) =~= te);
            }
        },
        Decoder::Fuse => {
            if ts.len() == 1 {
                ts.lemma_flatten_one_element();
                assert(ts.flatten() == ts[0]);
            } else {
                assert(ts.len() == 0);
            }
        },
        Decoder::Metaspace { .. } => {
        },
        Decoder::Replace { pattern, content } => {
        },
        Decoder::Strip { content_char, left, right } => {
            if ts.len() == 1 {
                let out = strip_token(ts[0], content_char, left as int, right as int);
                assert(ts[0].skip(0) =~= ts[0]);
                assert(out =~= Seq::<char>::empty());
            }
        },
        Decoder::WordPiece { prefix, cleanup } => {
            if ts.len() == 1 {
                assert(cleanup_spec(ts[0]) =~= Seq::<char>::empty());
                assert(chain_spec(d, ts)[0] == wordpiece_token(ts[0], prefix@, cleanup, true));
            }
        },
        Decoder::Sequence { members } => {
            lemma_members_blank(members@, 0, ts);
        },
    }
}

proof fn lemma_members_blank(ms: Seq<Decoder>, k: int, ts: Seq<Seq<char>>)
    requires
        forall|i: int| 0 <= i < ms.len() ==> (#[trigger] ms[i]).wf(),
        blank(ts),
    ensures
        blank(members_chain_from(ms, k, ts)),
    decreases ms, ms.len() - k + 1,
{
    if k < 0 || k >= ms.len() {
    } else {
        lemma_chain_blank(ms[k], ts);
        lemma_members_blank(ms, k + 1, chain_spec(ms[k], ts));
    }
}

/// For every valid decoder configuration, decoding the empty token sequence
/// yields the empty string.
pub proof fn lemma_decode_empty(d: Decoder)
    requires
        d.wf(),
    ensures
        decode_spec(d, Seq::<Seq<char>>::empty()) == Seq::<char>::empty(),
{
    let ts = Seq::<Seq<char>>::empty();
    lemma_chain_blank(d, ts);
    let out = chain_spec(d, ts);
    if out.len() == 0 {
        assert(out.flatten() =~= Seq::<char>::empty());
    } else {
        assert(out =~= seq![out[0]]);
        out.lemma_flatten_one_element();
        assert(out.flatten() =~= Seq::<char>::empty());
    }
}

/// The sequence combinator applies its members in declared order: with two
/// members, the whole pipeline is the second applied to the first's output,
/// not any interleaving.
pub proof fn lemma_sequence_applies_in_order(
    d: Decoder,
    d1: Decoder,
    d2: Decoder,
    ts: Seq<Seq<char>>,
)
    requires
        d matches Decoder::Sequence { members } && members@ == seq![d1, d2],
    ensures
        chain_spec(d, ts) == chain_spec(d2, chain_spec(d1, ts)),
{
    let ms = d->Sequence_members@;
    assert(ms.len() == 2 && ms[0] == d1 && ms[1] == d2);
    let mid = chain_spec(d1, ts);
    assert(chain_spec(d, ts) == members_chain_from(ms, 0, ts));
    assert(members_chain_from(ms, 0, ts) == members_chain_from(ms, 1, mid));
    assert(members_chain_from(ms, 1, mid) == members_chain_from(ms, 2, chain_spec(d2, mid)));
    assert(members_chain_from(ms, 2, chain_spec(d2, mid)) == chain_spec(d2, mid));
}

proof fn lemma_flatten_singletons(n: nat, c: char)
    ensures
        Seq::new(n, |i: int| seq![c]).flatten() == Seq::new(n, |i: int| c),
    decreases n,
{
    let s = Seq::new(n, |i: int| seq![c]);
    if n == 0 {
        assert(s.flatten() =~= Seq::new(n, |i: int| c));
    } else {
        assert(s.drop_first() =~= Seq::new((n - 1) as nat, |i: int| seq![c]));
        lemma_flatten_singletons((n - 1) as nat, c);
        assert(s.flatten() == s.first() + s.drop_first().flatten());
        assert(seq![c] + Seq::new((n - 1) as nat, |i: int| c) =~= Seq::new(n, |i: int| c));
        assert(s.first() == seq![c]);
    }
}

/// A run made only of byte-escape tokens whose bytes are not valid UTF-8
/// decodes to exactly one replacement character per byte of the run, never
/// one per token and never more.
pub proof fn lemma_byte_fallback_invalid_run(bytes: Seq<u8>)
    requires
        bytes.len() > 0,
        !valid_utf8(bytes),
    ensures
        decode_spec(Decoder::ByteFallback, byte_escape_tokens(bytes)) == Seq::new(
            bytes.len(),
            |i: int| replacement_char(),
        ),
{
    lemma_byte_fallback_all_bytes(bytes, Seq::<u8>::empty());
    assert(Seq::<u8>::empty() + bytes =~= bytes);
    let out = chain_spec(Decoder::ByteFallback, byte_escape_tokens(bytes));
    assert(out == Seq::new(bytes.len(), |i: int| seq![replacement_char()]));
    lemma_flatten_singletons(bytes.len(), replacement_char());
}

/// Decoders with the same configuration produce the same token list on
/// every input: a duplicate is indistinguishable from its original.
pub proof fn lemma_equiv_chain(a: Decoder, b: Decoder, ts: Seq<Seq<char>>)
    requires
        equiv(a, b),
    ensures
        chain_spec(a, ts) == chain_spec(b, ts),
    decreases a, 0int,
{
    match a {
        Decoder::Sequence { members: ma } => {
            match b {
                Decoder::Sequence { members: mb } => {
                    lemma_equiv_members(ma@, mb@, 0, ts);
                },
                _ => {
                    assert(false);
                },
            }
        },
        _ => {},
    }
}

proof fn lemma_equiv_members(ma: Seq<Decoder>, mb: Seq<Decoder>, k: int, ts: Seq<Seq<char>>)
    requires
        ma.len() == mb.len(),
        forall|i: int| 0 <= i < ma.len() ==> equiv(#[trigger] ma[i], mb[i]),
    ensures
        members_chain_from(ma, k, ts) == members_chain_from(mb, k, ts),
    decreases ma, ma.len() - k + 1,
{
    if k < 0 || k >= ma.len() {
    } else {
        lemma_equiv_chain(ma[k], mb[k], ts);
        lemma_equiv_members(ma, mb, k + 1, chain_spec(ma[k], ts));
    }
}

/// Equivalent decoders are equally valid: duplication preserves
/// well-formedness.
pub proof fn lemma_equiv_wf(a: Decoder, b: Decoder)
    requires
        equiv(a, b),
    ensures
        a.wf() == b.wf(),
    decreases a,
{
    match a {
        Decoder::Sequence { members: ma } => {
            match b {
                Decoder::Sequence { members: mb } => {
                    if a.wf() {
                        assert forall|i: int| 0 <= i < mb@.len() implies (#[trigger] mb@[i]).wf() by {
                            lemma_equiv_wf(ma@[i], mb@[i]);
                        }
                        assert(b.wf());
                    }
                    if b.wf() {
                        assert forall|i: int| 0 <= i < ma@.len() implies (#[trigger] ma@[i]).wf() by {
                            lemma_equiv_wf(ma@[i], mb@[i]);
                        }
                        assert(a.wf());
                    }
                },
                _ => {
                    assert(false);
                },
            }
        },
        _ => {},
    }
}


/// A byte-escape run embedded between ordinary tokens decodes on its own:
/// the surrounding tokens pass through, a valid run becomes its text, and
/// an invalid run becomes one replacement character per byte of the run.
pub proof fn lemma_byte_fallback_embedded_run(
    before: Seq<char>,
    bytes: Seq<u8>,
    after: Seq<char>,
)
    requires
        !is_byte_token(before),
        !is_byte_token(after),
    ensures
        decode_spec(
            Decoder::ByteFallback,
            seq![before] + byte_escape_tokens(bytes) + seq![after],
        ) == before + (if valid_utf8(bytes) {
            decode_utf8(bytes)
        } else {
            Seq::new(bytes.len(), |i: int| replacement_char())
        }) + after,
{
    let pe = Seq::<u8>::empty();
    let te = Seq::<Seq<char>>::empty();
    let ts = seq![before] + byte_escape_tokens(bytes) + seq![after];
    assert(pe =~= seq![]);
    assert(ts[0] == before);
    assert(byte_fallback_from(ts, pe) == flush_run(pe) + seq![ts[0]] + byte_fallback_from(
        ts.drop_first(),
        pe,
    ));
    assert(ts.drop_first() =~= byte_escape_tokens(bytes) + seq![after]);
    lemma_byte_fallback_absorbs_run(bytes, seq![after], pe);
    assert(pe + bytes =~= bytes);
    let tail = seq![after];
    assert(byte_fallback_from(tail, bytes) == flush_run(bytes) + seq![after]
        + byte_fallback_from(tail.drop_first(), pe));
    assert(tail.drop_first() =~= te);
    assert(byte_fallback_from(te, pe) == flush_run(pe));
    assert(flush_run(pe) =~= te);
    let out = chain_spec(Decoder::ByteFallback, ts);
    assert(out =~= seq![before] + flush_run(bytes) + seq![after]);
    lemma_flatten_concat(seq![before] + flush_run(bytes), seq![after]);
    lemma_flatten_concat(seq![before], flush_run(bytes));
    assert((seq![before] + flush_run(bytes)) + seq![after] =~= out);
    seq![before].lemma_flatten_one_element();
    seq![after].lemma_flatten_one_element();
    if bytes.len() == 0 {
        assert(flush_run(bytes).flatten() =~= Seq::<char>::empty());
        assert(decode_utf8(bytes) =~= Seq::<char>::empty());
        assert(valid_utf8(bytes));
        assert(out.flatten() =~= before + decode_utf8(bytes) + after);
    } else if valid_utf8(bytes) {
        flush_run(bytes).lemma_flatten_one_element();
        assert(out.flatten() =~= before + decode_utf8(bytes) + after);
    } else {
        lemma_flatten_singletons(bytes.len(), replacement_char());
        assert(out.flatten() =~= before + Seq::new(bytes.len(), |i: int| replacement_char())
            + after);
    }
}

/// Decoding the byte-escape spelling of any text's UTF-8 bytes with
/// ByteFallback reproduces the text exactly.
pub proof fn lemma_byte_fallback_round_trip(text: Seq<char>)
    ensures
        decode_spec(Decoder::ByteFallback, byte_escape_tokens(encode_utf8(text))) == text,
{
    let bytes = encode_utf8(text);
    lemma_byte_fallback_all_bytes(bytes, Seq::<u8>::empty());
    assert(Seq::<u8>::empty() + bytes =~= bytes);
    let out = chain_spec(Decoder::ByteFallback, byte_escape_tokens(bytes));
    assert(out == flush_run(bytes));
    if text.len() == 0 {
        assert(bytes.len() == 0);
        assert(out.flatten() =~= Seq::<char>::empty());
    } else {
        assert(bytes.len() > 0);
        encode_utf8_valid_utf8(text);
        encode_utf8_decode_utf8(text);
        assert(out == seq![text]);
        out.lemma_flatten_one_element();
    }
}

} // verus!
