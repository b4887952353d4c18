//! The encoding alignment index: per-token word, sequence and character-span
//! records, with bidirectional lookup queries.

use crate::ConstructionError;
use vstd::prelude::*;

verus! {

/// Three parallel arrays, one entry per token: the word a token belongs to
/// (absent for special tokens), the input sequence it belongs to, and its
/// half-open character span `[start, end)` in that sequence's source text.
///
/// The index is built once per encode operation by an upstream aligner and
/// is read-only here. That tokens of one word form a contiguous run, with
/// non-decreasing spans, is a precondition on the builder and is not
/// re-validated by the queries.
pub struct AlignmentIndex {
    word_of: Vec<Option<u32>>,
    sequence_of: Vec<Option<usize>>,
    span: Vec<(usize, usize)>,
}

impl AlignmentIndex {
    /// The three arrays have one entry per token.
    pub open spec fn wf(self) -> bool {
        self.spec_word_of().len() == self.spec_sequence_of().len() && self.spec_word_of().len()
            == self.spec_span().len()
    }

    /// The number of tokens: one entry per token in each array.
    pub open spec fn spec_len(self) -> nat {
        self.spec_word_of().len()
    }

    pub closed spec fn spec_word_of(self) -> Seq<Option<u32>> {
        self.word_of@
    }

    pub closed spec fn spec_sequence_of(self) -> Seq<Option<usize>> {
        self.sequence_of@
    }

    pub closed spec fn spec_span(self) -> Seq<(usize, usize)> {
        self.span@
    }

    /// Token `i` belongs to word `word` of input sequence `sequence`.
    pub open spec fn matches_word(self, i: int, word: u32, sequence: usize) -> bool {
        &&& 0 <= i < self.spec_len()
        &&& self.spec_word_of()[i] == Some(word)
        &&& self.spec_sequence_of()[i] == Some(sequence)
    }

    /// Token `i` belongs to input sequence `sequence` and its span contains
    /// the character position `pos`.
    pub open spec fn covers_char(self, i: int, pos: usize, sequence: usize) -> bool {
        &&& 0 <= i < self.spec_len()
        &&& self.spec_sequence_of()[i] == Some(sequence)
        &&& self.spec_span()[i].0 <= pos < self.spec_span()[i].1
    }

    /// Builds an index from its three parallel arrays; fails exactly when
    /// the arrays differ in length.
    pub fn new(
        word_of: Vec<Option<u32>>,
        sequence_of: Vec<Option<usize>>,
        span: Vec<(usize, usize)>,
    ) -> (r: Result<AlignmentIndex, ConstructionError>)
        ensures
            r is Ok <==> (word_of@.len() == sequence_of@.len() && word_of@.len() == span@.len()),
            r matches Ok(ix) ==> {
                &&& ix.wf()
                &&& ix.spec_word_of() == word_of@
                &&& ix.spec_sequence_of() == sequence_of@
                &&& ix.spec_span() == span@
            },
            r is Err ==> r == Err::<AlignmentIndex, ConstructionError>(
                ConstructionError::MismatchedLengths,
            ),
    {
        if word_of.len() != sequence_of.len() || word_of.len() != span.len() {
            return Err(ConstructionError::MismatchedLengths);
        }
        Ok(AlignmentIndex { word_of, sequence_of, span })
    }

    /// The number of tokens described by the index.
    pub fn len(&self) -> (n: usize)
        ensures
            n == self.spec_len(),
    {
        self.word_of.len()
    }

    /// The half-open token-index interval `[first, last + 1)` of the tokens
    /// belonging to the given word of the given sequence, or `None` when no
    /// token matches.
    pub fn word_to_tokens(&self, word: u32, sequence: usize) -> (r: Option<(usize, usize)>)
        requires
            self.wf(),
        ensures
            r is Some <==> exists|i: int| self.matches_word(i, word, sequence),
            r matches Some((s, e)) ==> {
                &&& s < e <= self.spec_len()
                &&& self.matches_word(s as int, word, sequence)
                &&& self.matches_word(e - 1, word, sequence)
                &&& forall|i: int|
                    self.matches_word(i, word, sequence) ==> s <= i < e
            },
    {
        let mut first: usize = 0;
        let mut last: usize = 0;
        let mut found = false;
        let n = self.word_of.len();
        let mut i: usize = 0;
        while i < n
            invariant
                0 <= i <= n,
                n == self.spec_len(),
                self.wf(),
                found <==> exists|j: int| 0 <= j < i && self.matches_word(j, word, sequence),
                found ==> {
                    &&& first <= last < i
                    &&& self.matches_word(first as int, word, sequence)
                    &&& self.matches_word(last as int, word, sequence)
                    &&& forall|j: int|
                        0 <= j < i && self.matches_word(j, word, sequence) ==> first <= j <= last
                },
            decreases n - i,
        {
            let w = self.word_of[i];
            let s = self.sequence_of[i];
            let hit = match (w, s) {
                (Some(wi), Some(si)) => wi == word && si == sequence,
                _ => false,
            };
            if hit {
                assert(self.matches_word(i as int, word, sequence));
                if !found {
                    first = i;
                    found = true;
                }
                last = i;
            } else {
                assert(!self.matches_word(i as int, word, sequence));
            }
            i += 1;
        }
        if found {
            Some((first, last + 1))
        } else {
            None
        }
    }

    /// The character interval from the first matching token's span start to
    /// the last matching token's span end, for the given word of the given
    /// sequence, or `None` when no token matches.
    pub fn word_to_chars(&self, word: u32, sequence: usize) -> (r: Option<(usize, usize)>)
        requires
            self.wf(),
        ensures
            r is Some <==> exists|i: int| self.matches_word(i, word, sequence),
            r matches Some((cs, ce)) ==> exists|s: int, l: int|
                {
                    &&& self.matches_word(s, word, sequence)
                    &&& self.matches_word(l, word, sequence)
                    &&& (forall|i: int| self.matches_word(i, word, sequence) ==> s <= i <= l)
                    &&& cs == self.spec_span()[s].0
                    &&& ce == self.spec_span()[l].1
                },
    {
        match self.word_to_tokens(word, sequence) {
            Some((s, e)) => {
                let cs = self.span[s].0;
                let ce = self.span[e - 1].1;
                proof {
                    assert(self.matches_word(s as int, word, sequence) && self.matches_word(
                        e - 1,
                        word,
                        sequence,
                    ) && (forall|i: int|
                        self.matches_word(i, word, sequence) ==> s <= i <= e - 1) && cs
                        == self.spec_span()[s as int].0 && ce == self.spec_span()[e - 1].1);
                }
                Some((cs, ce))
            },
            None => None,
        }
    }

    /// The sequence id of the given token, or `None` when the token carries
    /// no sequence id or the index is out of range.
    pub fn token_to_sequence(&self, token: usize) -> (r: Option<usize>)
        requires
            self.wf(),
        ensures
            r == if token < self.spec_len() {
                self.spec_sequence_of()[token as int]
            } else {
                None::<usize>
            },
    {
        if token < self.sequence_of.len() {
            self.sequence_of[token]
        } else {
            None
        }
    }

    /// The sequence id and character span of the given token, or `None`
    /// when the token carries no sequence id or the index is out of range.
    pub fn token_to_chars(&self, token: usize) -> (r: Option<(usize, (usize, usize))>)
        requires
            self.wf(),
        ensures
            r is Some <==> (token < self.spec_len() && self.spec_sequence_of()[token as int]
                is Some),
            r matches Some((sq, sp)) ==> {
                &&& token < self.spec_len()
                &&& Some(sq) == self.spec_sequence_of()[token as int]
                &&& sp == self.spec_span()[token as int]
            },
    {
        if token < self.sequence_of.len() {
            match self.sequence_of[token] {
                Some(sq) => Some((sq, self.span[token])),
                None => None,
            }
        } else {
            None
        }
    }

    /// The sequence id and word id of the given token, or `None` when the
    /// token carries no sequence or word id or the index is out of range.
    pub fn token_to_word(&self, token: usize) -> (r: Option<(usize, u32)>)
        requires
            self.wf(),
        ensures
            r is Some <==> (token < self.spec_len() && self.spec_sequence_of()[token as int]
                is Some && self.spec_word_of()[token as int] is Some),
            r matches Some((sq, w)) ==> {
                &&& token < self.spec_len()
                &&& Some(sq) == self.spec_sequence_of()[token as int]
                &&& Some(w) == self.spec_word_of()[token as int]
            },
    {
        if token < self.sequence_of.len() {
            match (self.sequence_of[token], self.word_of[token]) {
                (Some(sq), Some(w)) => Some((sq, w)),
                _ => None,
            }
        } else {
            None
        }
    }

    /// The index of the first token of the given sequence whose span
    /// contains the character position, or `None` when no span does.
    /// Spans within one sequence are assumed non-overlapping, so the first
    /// match is the unique one.
    pub fn char_to_token(&self, pos: usize, sequence: usize) -> (r: Option<usize>)
        requires
            self.wf(),
        ensures
            r is None <==> forall|i: int| !self.covers_char(i, pos, sequence),
            r matches Some(j) ==> {
                &&& self.covers_char(j as int, pos, sequence)
                &&& forall|i: int| 0 <= i < j ==> !self.covers_char(i, pos, sequence)
            },
    {
        let n = self.sequence_of.len();
        let mut i: usize = 0;
        while i < n
            invariant
                0 <= i <= n,
                n == self.spec_len(),
                self.wf(),
                forall|j: int| 0 <= j < i ==> !self.covers_char(j, pos, sequence),
            decreases n - i,
        {
            let hit = match self.sequence_of[i] {
                Some(si) => si == sequence && self.span[i].0 <= pos && pos < self.span[i].1,
                None => false,
            };
            if hit {
                assert(self.covers_char(i as int, pos, sequence));
                return Some(i);
            }
            i += 1;
        }
        None
    }

    /// The word id of the token found by [`Self::char_to_token`], or `None`
    /// when no token covers the position or the covering token carries no
    /// word id.
    pub fn char_to_word(&self, pos: usize, sequence: usize) -> (r: Option<u32>)
        requires
            self.wf(),
        ensures
            (forall|i: int| !self.covers_char(i, pos, sequence)) ==> r is None,
            forall|j: int|
                (self.covers_char(j, pos, sequence) && (forall|i: int|
                    0 <= i < j ==> !self.covers_char(i, pos, sequence))) ==> r
                    == self.spec_word_of()[j],
    {
        match self.char_to_token(pos, sequence) {
            Some(j) => self.word_of[j],
            None => None,
        }
    }
}

} // verus!
