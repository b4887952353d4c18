//! The primitive decoders: each one is a pure transformation from a list of
//! token character sequences to another, given here as a specification
//! together with a verified executable form.

use crate::text::{
    chars_eq, cleanup_exec, cleanup_spec, contains_pat, copy_chars, dedup_adjacent,
    dedup_adjacent_exec, dv, join_exec, lemma_dv_push, match_at_exec, occurs, replace_all,
    replace_all_exec, starts_with,
};
use crate::unicode::{lossy_decode, replacement_char, utf8_lossy, utf8_strict};
use vstd::prelude::*;
use vstd::seq_lib::*;
use vstd::utf8::{decode_utf8, valid_utf8};

verus! {

// ----------------------------------------------------------------------
// Fuse: all tokens joined into a single token.
// ----------------------------------------------------------------------
pub open spec fn fuse_chain(ts: Seq<Seq<char>>) -> Seq<Seq<char>> {
    seq![ts.flatten()]
}

pub fn fuse_exec(tokens: &Vec<Vec<char>>) -> (r: Vec<Vec<char>>)
    ensures
        dv(r@) == fuse_chain(dv(tokens@)),
{
    let joined = join_exec(tokens);
    let ghost j = joined@;
    let mut r: Vec<Vec<char>> = Vec::new();
    r.push(joined);
    proof {
        assert(dv(r@) =~= seq![j]);
    }
    r
}

// ----------------------------------------------------------------------
// BPE: an end-of-word suffix is removed everywhere; a token that carried
// it marks a word boundary, so a single space follows it when joining
// (no space after the final token).
// ----------------------------------------------------------------------
pub open spec fn bpe_token(t: Seq<char>, suffix: Seq<char>, last: bool) -> Seq<char> {
    let stripped = replace_all(t, suffix, seq![]);
    if occurs(t, suffix) && !last {
        stripped.push(' ')
    } else {
        stripped
    }
}

pub open spec fn bpe_chain(ts: Seq<Seq<char>>, suffix: Seq<char>) -> Seq<Seq<char>> {
    ts.map(|i: int, t: Seq<char>| bpe_token(t, suffix, i == ts.len() - 1))
}

pub fn bpe_exec(tokens: &Vec<Vec<char>>, suffix: &Vec<char>) -> (r: Vec<Vec<char>>)
    ensures
        dv(r@) == bpe_chain(dv(tokens@), suffix@),
{
    let ghost w = dv(tokens@);
    let ghost target = bpe_chain(w, suffix@);
    let empty: Vec<char> = Vec::new();
    let mut r: Vec<Vec<char>> = Vec::new();
    let mut i: usize = 0;
    proof {
        assert(dv(r@) =~= target.subrange(0, 0));
    }
    while i < tokens.len()
        invariant
            0 <= i <= tokens.len(),
            w == dv(tokens@),
            target == bpe_chain(w, suffix@),
            empty@ == Seq::<char>::empty(),
            dv(r@) == target.subrange(0, i as int),
        decreases tokens.len() - i,
    {
        let had = contains_pat(&tokens[i], suffix);
        let mut item = replace_all_exec(&tokens[i], suffix, &empty);
        if had && i + 1 != tokens.len() {
            item.push(' ');
        }
        proof {
            assert(w[i as int] == tokens@[i as int]@);
            assert(item@ == bpe_token(w[i as int], suffix@, i == w.len() - 1));
            assert(target[i as int] == bpe_token(w[i as int], suffix@, i == w.len() - 1));
        }
        let ghost rold = r@;
        r.push(item);
        proof {
            lemma_dv_push(rold, item);
            assert(target.subrange(0, i as int).push(target[i as int]) =~= target.subrange(
                0,
                i + 1 as int,
            ));
        }
        i += 1;
    }
    proof {
        assert(target.subrange(0, target.len() as int) =~= target);
    }
    r
}

// ----------------------------------------------------------------------
// CTC: adjacent duplicates collapsed, pad tokens dropped, the word
// delimiter replaced by a space, and optional cleanup of the rest.
// ----------------------------------------------------------------------
pub open spec fn ctc_map(
    ts: Seq<Seq<char>>,
    pad: Seq<char>,
    delimiter: Seq<char>,
    cleanup: bool,
) -> Seq<Seq<char>>
    decreases ts.len(),
{
    if ts.len() == 0 {
        seq![]
    } else {
        let rest = ctc_map(ts.drop_first(), pad, delimiter, cleanup);
        if ts[0] == pad {
            rest
        } else if ts[0] == delimiter {
            seq![seq![' ']] + rest
        } else if cleanup {
            seq![cleanup_spec(ts[0])] + rest
        } else {
            seq![ts[0]] + rest
        }
    }
}

pub open spec fn ctc_chain(
    ts: Seq<Seq<char>>,
    pad: Seq<char>,
    delimiter: Seq<char>,
    cleanup: bool,
) -> Seq<Seq<char>> {
    ctc_map(dedup_adjacent(ts), pad, delimiter, cleanup)
}

pub fn ctc_exec(tokens: &Vec<Vec<char>>, pad: &Vec<char>, delimiter: &Vec<char>, cleanup: bool) -> (r:
    Vec<Vec<char>>)
    ensures
        dv(r@) == ctc_chain(dv(tokens@), pad@, delimiter@, cleanup),
{
    let dd = dedup_adjacent_exec(tokens);
    let ghost w = dv(dd@);
    let mut r: Vec<Vec<char>> = Vec::new();
    let mut i: usize = 0;
    proof {
        assert(w.skip(0) =~= w);
        assert(dv(r@) =~= Seq::<Seq<char>>::empty());
        assert(Seq::<Seq<char>>::empty() + ctc_map(w, pad@, delimiter@, cleanup) =~= ctc_map(
            w,
            pad@,
            delimiter@,
            cleanup,
        ));
    }
    while i < dd.len()
        invariant
            0 <= i <= dd.len(),
            w == dv(dd@),
            ctc_map(w, pad@, delimiter@, cleanup) == dv(r@) + ctc_map(
                w.skip(i as int),
                pad@,
                delimiter@,
                cleanup,
            ),
        decreases dd.len() - i,
    {
        let ghost prev = dv(r@);
        let ghost tail = w.skip(i as int);
        proof {
            assert(tail[0] == w[i as int] && w[i as int] == dd@[i as int]@);
            assert(tail.drop_first() =~= w.skip(i + 1));
        }
        if chars_eq(&dd[i], pad) {
        } else {
            let item: Vec<char> = if chars_eq(&dd[i], delimiter) {
                let mut sp: Vec<char> = Vec::new();
                sp.push(' ');
                proof {
                    assert(sp@ =~= seq![' ']);
                }
                sp
            } else if cleanup {
                cleanup_exec(&dd[i])
            } else {
                copy_chars(&dd[i])
            };
            proof {
                assert(ctc_map(tail, pad@, delimiter@, cleanup) == seq![item@] + ctc_map(
                    w.skip(i + 1),
                    pad@,
                    delimiter@,
                    cleanup,
                ));
                assert(prev + (seq![item@] + ctc_map(w.skip(i + 1), pad@, delimiter@, cleanup))
                    =~= (prev + seq![item@]) + ctc_map(w.skip(i + 1), pad@, delimiter@, cleanup));
            }
            let ghost rold = r@;
            r.push(item);
            proof {
                lemma_dv_push(rold, item);
                assert(prev + seq![item@] =~= prev.push(item@));
            }
        }
        i += 1;
    }
    proof {
        assert(w.skip(w.len() as int) =~= Seq::<Seq<char>>::empty());
        assert(dv(r@) + Seq::<Seq<char>>::empty() =~= dv(r@));
    }
    r
}

// ----------------------------------------------------------------------
// Metaspace: the replacement character becomes a space everywhere; only
// at the very start of the output does the prepend scheme decide whether
// that leading space is kept (`Always`, `First`) or dropped (`Never`).
// ----------------------------------------------------------------------
pub open spec fn metaspace_char(c: char, replacement: char) -> char {
    if c == replacement {
        ' '
    } else {
        c
    }
}

pub open spec fn metaspace_token(t: Seq<char>, replacement: char, drop_leading: bool) -> Seq<
    char,
> {
    if t.len() == 0 {
        t
    } else {
        let head = if t[0] == replacement {
            if drop_leading {
                Seq::<char>::empty()
            } else {
                seq![' ']
            }
        } else {
            seq![t[0]]
        };
        head + t.drop_first().map_values(|c: char| metaspace_char(c, replacement))
    }
}

pub open spec fn metaspace_chain(ts: Seq<Seq<char>>, replacement: char, never: bool) -> Seq<
    Seq<char>,
> {
    ts.map(|i: int, t: Seq<char>| metaspace_token(t, replacement, i == 0 && never))
}

fn metaspace_token_exec(t: &Vec<char>, replacement: char, drop_leading: bool) -> (r: Vec<char>)
    ensures
        r@ == metaspace_token(t@, replacement, drop_leading),
{
    let mut r: Vec<char> = Vec::new();
    if t.len() == 0 {
        return r;
    }
    let ghost head = metaspace_token(t@, replacement, drop_leading).subrange(
        0,
        metaspace_token(t@, replacement, drop_leading).len() - (t@.len() - 1),
    );
    if t[0] == replacement {
        if !drop_leading {
            r.push(' ');
        }
    } else {
        r.push(t[0]);
    }
    let ghost h = r@;
    let ghost mapped = t@.drop_first().map_values(|c: char| metaspace_char(c, replacement));
    proof {
        assert(metaspace_token(t@, replacement, drop_leading) == h + mapped);
    }
    let mut j: usize = 1;
    while j < t.len()
        invariant
            1 <= j <= t@.len(),
            t@.len() > 0,
            mapped == t@.drop_first().map_values(|c: char| metaspace_char(c, replacement)),
            r@ == h + mapped.subrange(0, j - 1),
        decreases t@.len() - j,
    {
        let c = t[j];
        if c == replacement {
            r.push(' ');
        } else {
            r.push(c);
        }
        proof {
            assert(mapped[j - 1] == metaspace_char(t@[j as int], replacement));
            assert(r@ =~= h + mapped.subrange(0, j as int));
        }
        j += 1;
    }
    proof {
        assert(mapped.subrange(0, mapped.len() as int) =~= mapped);
    }
    r
}

pub fn metaspace_exec(tokens: &Vec<Vec<char>>, replacement: char, never: bool) -> (r: Vec<
    Vec<char>,
>)
    ensures
        dv(r@) == metaspace_chain(dv(tokens@), replacement, never),
{
    let ghost w = dv(tokens@);
    let ghost target = metaspace_chain(w, replacement, never);
    let mut r: Vec<Vec<char>> = Vec::new();
    let mut i: usize = 0;
    proof {
        assert(dv(r@) =~= target.subrange(0, 0));
    }
    while i < tokens.len()
        invariant
            0 <= i <= tokens.len(),
            w == dv(tokens@),
            target == metaspace_chain(w, replacement, never),
            dv(r@) == target.subrange(0, i as int),
        decreases tokens.len() - i,
    {
        let item = metaspace_token_exec(&tokens[i], replacement, i == 0 && never);
        proof {
            assert(w[i as int] == tokens@[i as int]@);
            assert(target[i as int] == metaspace_token(w[i as int], replacement, i == 0 && never));
        }
        let ghost rold = r@;
        r.push(item);
        proof {
            lemma_dv_push(rold, item);
            assert(target.subrange(0, i as int).push(target[i as int]) =~= target.subrange(
                0,
                i + 1 as int,
            ));
        }
        i += 1;
    }
    proof {
        assert(target.subrange(0, target.len() as int) =~= target);
    }
    r
}

// ----------------------------------------------------------------------
// WordPiece: a continuation prefix is removed and the token joins the
// previous one; tokens without it are preceded by a space, except the
// first. Optional cleanup as for CTC.
// ----------------------------------------------------------------------
pub open spec fn wordpiece_token(
    t: Seq<char>,
    prefix: Seq<char>,
    cleanup: bool,
    first: bool,
) -> Seq<char> {
    let base = if first {
        t
    } else if starts_with(t, prefix) {
        t.skip(prefix.len() as int)
    } else {
        seq![' '] + t
    };
    if cleanup {
        cleanup_spec(base)
    } else {
        base
    }
}

pub open spec fn wordpiece_chain(ts: Seq<Seq<char>>, prefix: Seq<char>, cleanup: bool) -> Seq<
    Seq<char>,
> {
    ts.map(|i: int, t: Seq<char>| wordpiece_token(t, prefix, cleanup, i == 0))
}

fn wordpiece_token_exec(t: &Vec<char>, prefix: &Vec<char>, cleanup: bool, first: bool) -> (r: Vec<
    char,
>)
    ensures
        r@ == wordpiece_token(t@, prefix@, cleanup, first),
{
    let mut base: Vec<char> = Vec::new();
    if first {
        base = copy_chars(t);
    } else if match_at_exec(t, prefix, 0) {
        let mut j: usize = prefix.len();
        proof {
            assert(base@ =~= t@.subrange(prefix@.len() as int, prefix@.len() as int));
        }
        while j < t.len()
            invariant
                prefix@.len() <= j <= t@.len(),
                base@ == t@.subrange(prefix@.len() as int, j as int),
            decreases t@.len() - j,
        {
            base.push(t[j]);
            proof {
                assert(base@ =~= t@.subrange(prefix@.len() as int, j + 1 as int));
            }
            j += 1;
        }
        proof {
            assert(t@.subrange(prefix@.len() as int, t@.len() as int) =~= t@.skip(
                prefix@.len() as int,
            ));
        }
    } else {
        base.push(' ');
        let mut j: usize = 0;
        proof {
            assert(base@ =~= seq![' '] + t@.subrange(0, 0));
        }
        while j < t.len()
            invariant
                0 <= j <= t@.len(),
                base@ == seq![' '] + t@.subrange(0, j as int),
            decreases t@.len() - j,
        {
            base.push(t[j]);
            proof {
                assert(base@ =~= seq![' '] + t@.subrange(0, j + 1 as int));
            }
            j += 1;
        }
        proof {
            assert(t@.subrange(0, t@.len() as int) =~= t@);
        }
    }
    if cleanup {
        cleanup_exec(&base)
    } else {
        base
    }
}

pub fn wordpiece_exec(tokens: &Vec<Vec<char>>, prefix: &Vec<char>, cleanup: bool) -> (r: Vec<
    Vec<char>,
>)
    ensures
        dv(r@) == wordpiece_chain(dv(tokens@), prefix@, cleanup),
{
    let ghost w = dv(tokens@);
    let ghost target = wordpiece_chain(w, prefix@, cleanup);
    let mut r: Vec<Vec<char>> = Vec::new();
    let mut i: usize = 0;
    proof {
        assert(dv(r@) =~= target.subrange(0, 0));
    }
    while i < tokens.len()
        invariant
            0 <= i <= tokens.len(),
            w == dv(tokens@),
            target == wordpiece_chain(w, prefix@, cleanup),
            dv(r@) == target.subrange(0, i as int),
        decreases tokens.len() - i,
    {
        let item = wordpiece_token_exec(&tokens[i], prefix, cleanup, i == 0);
        proof {
            assert(w[i as int] == tokens@[i as int]@);
            assert(target[i as int] == wordpiece_token(w[i as int], prefix@, cleanup, i == 0));
        }
        let ghost rold = r@;
        r.push(item);
        proof {
            lemma_dv_push(rold, item);
            assert(target.subrange(0, i as int).push(target[i as int]) =~= target.subrange(
                0,
                i + 1 as int,
            ));
        }
        i += 1;
    }
    proof {
        assert(target.subrange(0, target.len() as int) =~= target);
    }
    r
}

// ----------------------------------------------------------------------
// Replace: a literal pattern substituted in each token independently.
// ----------------------------------------------------------------------
pub open spec fn replace_chain(
    ts: Seq<Seq<char>>,
    pattern: Seq<char>,
    content: Seq<char>,
) -> Seq<Seq<char>> {
    ts.map(|i: int, t: Seq<char>| replace_all(t, pattern, content))
}

pub fn replace_exec(tokens: &Vec<Vec<char>>, pattern: &Vec<char>, content: &Vec<char>) -> (r: Vec<
    Vec<char>,
>)
    ensures
        dv(r@) == replace_chain(dv(tokens@), pattern@, content@),
{
    let ghost w = dv(tokens@);
    let ghost target = replace_chain(w, pattern@, content@);
    let mut r: Vec<Vec<char>> = Vec::new();
    let mut i: usize = 0;
    proof {
        assert(dv(r@) =~= target.subrange(0, 0));
    }
    while i < tokens.len()
        invariant
            0 <= i <= tokens.len(),
            w == dv(tokens@),
            target == replace_chain(w, pattern@, content@),
            dv(r@) == target.subrange(0, i as int),
        decreases tokens.len() - i,
    {
        let item = replace_all_exec(&tokens[i], pattern, content);
        proof {
            assert(w[i as int] == tokens@[i as int]@);
            assert(target[i as int] == replace_all(w[i as int], pattern@, content@));
        }
        let ghost rold = r@;
        r.push(item);
        proof {
            lemma_dv_push(rold, item);
            assert(target.subrange(0, i as int).push(target[i as int]) =~= target.subrange(
                0,
                i + 1 as int,
            ));
        }
        i += 1;
    }
    proof {
        assert(target.subrange(0, target.len() as int) =~= target);
    }
    r
}

// ----------------------------------------------------------------------
// Strip: up to `left` copies of a character trimmed from the left edge and
// up to `right` from the right edge of each token, stopping early at the
// first non-matching character.
// ----------------------------------------------------------------------
pub open spec fn leading_run(t: Seq<char>, c: char) -> int
    decreases t.len(),
{
    if t.len() > 0 && t[0] == c {
        1 + leading_run(t.drop_first(), c)
    } else {
        0
    }
}

pub open spec fn trailing_run(t: Seq<char>, c: char) -> int
    decreases t.len(),
{
    if t.len() > 0 && t[t.len() - 1] == c {
        1 + trailing_run(t.drop_last(), c)
    } else {
        0
    }
}

pub open spec fn strip_token(t: Seq<char>, c: char, left: int, right: int) -> Seq<char> {
    let lrun = leading_run(t, c);
    let lcut = if lrun < left {
        lrun
    } else {
        left
    };
    let rem = t.skip(lcut);
    let rrun = trailing_run(rem, c);
    let rcut = if rrun < right {
        rrun
    } else {
        right
    };
    rem.take(rem.len() - rcut)
}

pub open spec fn strip_chain(ts: Seq<Seq<char>>, c: char, left: int, right: int) -> Seq<
    Seq<char>,
> {
    ts.map(|i: int, t: Seq<char>| strip_token(t, c, left, right))
}

proof fn lemma_leading_run_eq(t: Seq<char>, c: char, m: int)
    requires
        0 <= m <= t.len(),
        forall|j: int| 0 <= j < m ==> t[j] == c,
        m < t.len() ==> t[m as int] != c,
    ensures
        leading_run(t, c) == m,
    decreases t.len(),
{
    if m == 0 {
    } else {
        assert(t.drop_first().len() == t.len() - 1);
        assert(forall|j: int| 0 <= j < m - 1 ==> t.drop_first()[j] == c);
        if m - 1 < t.drop_first().len() {
            assert(t.drop_first()[m - 1] == t[m as int]);
        }
        lemma_leading_run_eq(t.drop_first(), c, m - 1);
    }
}

proof fn lemma_trailing_run_eq(t: Seq<char>, c: char, m: int)
    requires
        0 <= m <= t.len(),
        forall|j: int| t.len() - m <= j < t.len() ==> t[j] == c,
        m < t.len() ==> t[t.len() - m - 1] != c,
    ensures
        trailing_run(t, c) == m,
    decreases t.len(),
{
    if m == 0 {
    } else {
        assert(t[t.len() - 1] == c);
        assert(t.drop_last().len() == t.len() - 1);
        assert(forall|j: int| t.drop_last().len() - (m - 1) <= j < t.drop_last().len()
            ==> t.drop_last()[j] == c);
        lemma_trailing_run_eq(t.drop_last(), c, m - 1);
    }
}

fn strip_token_exec(t: &Vec<char>, c: char, left: usize, right: usize) -> (r: Vec<char>)
    ensures
        r@ == strip_token(t@, c, left as int, right as int),
{
    // length of the run of `c` at the left edge
    let mut run: usize = 0;
    while run < t.len() && t[run] == c
        invariant
            0 <= run <= t@.len(),
            forall|j: int| 0 <= j < run ==> t@[j] == c,
        decreases t@.len() - run,
    {
        run += 1;
    }
    proof {
        lemma_leading_run_eq(t@, c, run as int);
    }
    let lcut = if run < left {
        run
    } else {
        left
    };
    let mut rem: Vec<char> = Vec::new();
    let mut j: usize = lcut;
    proof {
        assert(rem@ =~= t@.subrange(lcut as int, lcut as int));
    }
    while j < t.len()
        invariant
            lcut <= j <= t@.len(),
            lcut <= t@.len(),
            rem@ == t@.subrange(lcut as int, j as int),
        decreases t@.len() - j,
    {
        rem.push(t[j]);
        proof {
            assert(rem@ =~= t@.subrange(lcut as int, j + 1 as int));
        }
        j += 1;
    }
    proof {
        assert(t@.subrange(lcut as int, t@.len() as int) =~= t@.skip(lcut as int));
    }
    // length of the run of `c` at the right edge of the remainder
    let mut rrun: usize = 0;
    while rrun < rem.len() && rem[rem.len() - rrun - 1] == c
        invariant
            0 <= rrun <= rem@.len(),
            forall|j: int| rem@.len() - rrun <= j < rem@.len() ==> rem@[j] == c,
        decreases rem@.len() - rrun,
    {
        rrun += 1;
    }
    proof {
        lemma_trailing_run_eq(rem@, c, rrun as int);
    }
    let rcut = if rrun < right {
        rrun
    } else {
        right
    };
    let keep = rem.len() - rcut;
    let mut r: Vec<char> = Vec::new();
    let mut k: usize = 0;
    proof {
        assert(r@ =~= rem@.subrange(0, 0));
    }
    while k < keep
        invariant
            0 <= k <= keep <= rem@.len(),
            r@ == rem@.subrange(0, k as int),
        decreases keep - k,
    {
        r.push(rem[k]);
        proof {
            assert(r@ =~= rem@.subrange(0, k + 1 as int));
        }
        k += 1;
    }
    proof {
        assert(rem@.subrange(0, keep as int) =~= rem@.take(rem@.len() - rcut));
    }
    r
}

pub fn strip_exec(tokens: &Vec<Vec<char>>, c: char, left: usize, right: usize) -> (r: Vec<
    Vec<char>,
>)
    ensures
        dv(r@) == strip_chain(dv(tokens@), c, left as int, right as int),
{
    let ghost w = dv(tokens@);
    let ghost target = strip_chain(w, c, left as int, right as int);
    let mut r: Vec<Vec<char>> = Vec::new();
    let mut i: usize = 0;
    proof {
        assert(dv(r@) =~= target.subrange(0, 0));
    }
    while i < tokens.len()
        invariant
            0 <= i <= tokens.len(),
            w == dv(tokens@),
            target == strip_chain(w, c, left as int, right as int),
            dv(r@) == target.subrange(0, i as int),
        decreases tokens.len() - i,
    {
        let item = strip_token_exec(&tokens[i], c, left, right);
        proof {
            assert(w[i as int] == tokens@[i as int]@);
            assert(target[i as int] == strip_token(w[i as int], c, left as int, right as int));
        }
        let ghost rold = r@;
        r.push(item);
        proof {
            lemma_dv_push(rold, item);
            assert(target.subrange(0, i as int).push(target[i as int]) =~= target.subrange(
                0,
                i + 1 as int,
            ));
        }
        i += 1;
    }
    proof {
        assert(target.subrange(0, target.len() as int) =~= target);
    }
    r
}

// ----------------------------------------------------------------------
// ByteFallback: tokens of the form `<0xNN>` are gathered into a byte run;
// each run is decoded as UTF-8, or yields one replacement character per
// byte when the run is not valid UTF-8. Other tokens pass through and
// flush the pending run first.
// ----------------------------------------------------------------------
pub open spec fn is_hex_digit(c: char) -> bool {
    ('0' <= c && c <= '9') || ('a' <= c && c <= 'f') || ('A' <= c && c <= 'F')
}

pub open spec fn hex_val(c: char) -> u8
    recommends
        is_hex_digit(c),
{
    if '0' <= c && c <= '9' {
        (c as u32 - '0' as u32) as u8
    } else if 'a' <= c && c <= 'f' {
        (c as u32 - 'a' as u32 + 10) as u8
    } else {
        (c as u32 - 'A' as u32 + 10) as u8
    }
}

/// A token spelling out one byte, `<0xNN>` with two hex digits.
pub open spec fn is_byte_token(t: Seq<char>) -> bool {
    t.len() == 6 && t[0] == '<' && t[1] == '0' && t[2] == 'x' && is_hex_digit(t[3]) && is_hex_digit(
        t[4],
    ) && t[5] == '>'
}

pub open spec fn byte_token_val(t: Seq<char>) -> u8
    recommends
        is_byte_token(t),
{
    (16 * hex_val(t[3]) as u32 + hex_val(t[4]) as u32) as u8
}

/// A pending byte run rendered as tokens: decoded text when the run is
/// valid UTF-8, else one replacement character per byte.
pub open spec fn flush_run(pending: Seq<u8>) -> Seq<Seq<char>> {
    if pending.len() == 0 {
        seq![]
    } else if valid_utf8(pending) {
        seq![decode_utf8(pending)]
    } else {
        Seq::new(pending.len(), |i: int| seq![replacement_char()])
    }
}

pub open spec fn byte_fallback_from(ts: Seq<Seq<char>>, pending: Seq<u8>) -> Seq<Seq<char>>
    decreases ts.len(),
{
    if ts.len() == 0 {
        flush_run(pending)
    } else if is_byte_token(ts[0]) {
        byte_fallback_from(ts.drop_first(), pending.push(byte_token_val(ts[0])))
    } else {
        flush_run(pending) + seq![ts[0]] + byte_fallback_from(ts.drop_first(), seq![])
    }
}

pub open spec fn byte_fallback_chain(ts: Seq<Seq<char>>) -> Seq<Seq<char>> {
    byte_fallback_from(ts, seq![])
}

/// The hex digit spelling `n`, upper case.
pub open spec fn hex_digit_char(n: u8) -> char {
    if n == 0 {
        '0'
    } else if n == 1 {
        '1'
    } else if n == 2 {
        '2'
    } else if n == 3 {
        '3'
    } else if n == 4 {
        '4'
    } else if n == 5 {
        '5'
    } else if n == 6 {
        '6'
    } else if n == 7 {
        '7'
    } else if n == 8 {
        '8'
    } else if n == 9 {
        '9'
    } else if n == 10 {
        'A'
    } else if n == 11 {
        'B'
    } else if n == 12 {
        'C'
    } else if n == 13 {
        'D'
    } else if n == 14 {
        'E'
    } else {
        'F'
    }
}

/// The byte-escape spelling of one byte, as an upstream byte-level
/// vocabulary writes it: `<0xNN>`.
pub open spec fn byte_escape_token(b: u8) -> Seq<char> {
    seq!['<', '0', 'x', hex_digit_char(b / 16), hex_digit_char(b % 16), '>']
}

/// Every byte of a buffer spelled as a byte-escape token.
pub open spec fn byte_escape_tokens(bytes: Seq<u8>) -> Seq<Seq<char>> {
    bytes.map_values(|b: u8| byte_escape_token(b))
}

proof fn lemma_hex_digit_char_val(n: u8)
    requires
        n < 16,
    ensures
        is_hex_digit(hex_digit_char(n)),
        hex_val(hex_digit_char(n)) == n,
{
}

proof fn lemma_byte_escape_token(b: u8)
    ensures
        is_byte_token(byte_escape_token(b)),
        byte_token_val(byte_escape_token(b)) == b,
{
    lemma_hex_digit_char_val(b / 16);
    lemma_hex_digit_char_val(b % 16);
    assert(byte_escape_token(b)[3] == hex_digit_char(b / 16));
    assert(byte_escape_token(b)[4] == hex_digit_char(b % 16));
    assert(16 * (b / 16) as u32 + (b % 16) as u32 == b as u32);
}

/// Leading byte-escape tokens only accumulate: decoding continues on the
/// remaining tokens with their bytes appended to the pending run.
pub proof fn lemma_byte_fallback_absorbs_run(
    bytes: Seq<u8>,
    ts: Seq<Seq<char>>,
    pending: Seq<u8>,
)
    ensures
        byte_fallback_from(byte_escape_tokens(bytes) + ts, pending) == byte_fallback_from(
            ts,
            pending + bytes,
        ),
    decreases bytes.len(),
{
    if bytes.len() == 0 {
        assert(byte_escape_tokens(bytes) + ts =~= ts);
        assert(pending + bytes =~= pending);
    } else {
        let full = byte_escape_tokens(bytes) + ts;
        lemma_byte_escape_token(bytes[0]);
        assert(full[0] == byte_escape_token(bytes[0]));
        assert(full.drop_first() =~= byte_escape_tokens(bytes.drop_first()) + ts);
        lemma_byte_fallback_absorbs_run(bytes.drop_first(), ts, pending.push(bytes[0]));
        assert(pending.push(bytes[0]) + bytes.drop_first() =~= pending + bytes);
    }
}

/// A stream made only of byte-escape tokens accumulates into a single byte
/// run, flushed at the end.
pub proof fn lemma_byte_fallback_all_bytes(bytes: Seq<u8>, pending: Seq<u8>)
    ensures
        byte_fallback_from(byte_escape_tokens(bytes), pending) == flush_run(pending + bytes),
{
    lemma_byte_fallback_absorbs_run(bytes, Seq::<Seq<char>>::empty(), pending);
    assert(byte_escape_tokens(bytes) + Seq::<Seq<char>>::empty() =~= byte_escape_tokens(bytes));
    assert(byte_fallback_from(Seq::<Seq<char>>::empty(), pending + bytes) == flush_run(
        pending + bytes,
    ));
}

fn hex_val_exec(c: char) -> (r: Option<u8>)
    ensures
        r is Some <==> is_hex_digit(c),
        r matches Some(v) ==> v == hex_val(c) && v < 16,
{
    let u = c as u32;
    if '0' <= c && c <= '9' {
        Some((u - 0x30) as u8)
    } else if 'a' <= c && c <= 'f' {
        Some((u - 0x61 + 10) as u8)
    } else if 'A' <= c && c <= 'F' {
        Some((u - 0x41 + 10) as u8)
    } else {
        None
    }
}

fn byte_token_val_exec(t: &Vec<char>) -> (r: Option<u8>)
    ensures
        r is Some <==> is_byte_token(t@),
        r matches Some(v) ==> v == byte_token_val(t@),
{
    if t.len() != 6 {
        return None;
    }
    if !(t[0] == '<' && t[1] == '0' && t[2] == 'x' && t[5] == '>') {
        return None;
    }
    let hi = hex_val_exec(t[3]);
    let lo = hex_val_exec(t[4]);
    match (hi, lo) {
        (Some(h), Some(l)) => Some(16 * h + l),
        _ => None,
    }
}

fn flush_exec(pending: &Vec<u8>) -> (r: Vec<Vec<char>>)
    ensures
        dv(r@) == flush_run(pending@),
{
    let mut r: Vec<Vec<char>> = Vec::new();
    if pending.len() == 0 {
        proof {
            assert(dv(r@) =~= flush_run(pending@));
        }
        return r;
    }
    match utf8_strict(pending) {
        Some(cs) => {
            let ghost v = cs@;
            r.push(cs);
            proof {
                assert(dv(r@) =~= seq![v]);
            }
        },
        None => {
            let mut k: usize = 0;
            while k < pending.len()
                invariant
                    0 <= k <= pending@.len(),
                    dv(r@) == Seq::new(k as nat, |i: int| seq![replacement_char()]),
                decreases pending@.len() - k,
            {
                let mut rc: Vec<char> = Vec::new();
                rc.push('\u{FFFD}');
                proof {
                    assert(rc@ =~= seq![replacement_char()]);
                }
                let ghost rold = r@;
                r.push(rc);
                proof {
                    lemma_dv_push(rold, rc);
                    assert(dv(r@) =~= Seq::new((k + 1) as nat, |i: int| seq![replacement_char()]));
                }
                k += 1;
            }
        },
    }
    r
}

fn push_all(dst: &mut Vec<Vec<char>>, src: &Vec<Vec<char>>)
    ensures
        dv(final (dst)@) == dv(old(dst)@) + dv(src@),
{
    let mut i: usize = 0;
    while i < src.len()
        invariant
            0 <= i <= src@.len(),
            dv(dst@) == dv(old(dst)@) + dv(src@).subrange(0, i as int),
        decreases src@.len() - i,
    {
        let item = copy_chars(&src[i]);
        let ghost dold = dst@;
        dst.push(item);
        proof {
            lemma_dv_push(dold, item);
            assert(dv(src@)[i as int] == src@[i as int]@);
            assert((dv(old(dst)@) + dv(src@).subrange(0, i as int)).push(dv(src@)[i as int]) =~= dv(
                old(dst)@,
            ) + dv(src@).subrange(0, i + 1 as int));
        }
        i += 1;
    }
    proof {
        assert(dv(src@).subrange(0, dv(src@).len() as int) =~= dv(src@));
    }
}

pub fn byte_fallback_exec(tokens: &Vec<Vec<char>>) -> (r: Vec<Vec<char>>)
    ensures
        dv(r@) == byte_fallback_chain(dv(tokens@)),
{
    let ghost w = dv(tokens@);
    let mut out: Vec<Vec<char>> = Vec::new();
    let mut pending: Vec<u8> = Vec::new();
    let mut i: usize = 0;
    proof {
        assert(w.skip(0) =~= w);
        assert(dv(out@) =~= Seq::<Seq<char>>::empty());
        assert(Seq::<Seq<char>>::empty() + byte_fallback_from(w, seq![]) =~= byte_fallback_from(
            w,
            seq![],
        ));
    }
    while i < tokens.len()
        invariant
            0 <= i <= tokens.len(),
            w == dv(tokens@),
            byte_fallback_chain(w) == dv(out@) + byte_fallback_from(
                w.skip(i as int),
                pending@,
            ),
        decreases tokens.len() - i,
    {
        let ghost tail = w.skip(i as int);
        proof {
            assert(tail[0] == w[i as int] && w[i as int] == tokens@[i as int]@);
            assert(tail.drop_first() =~= w.skip(i + 1));
        }
        match byte_token_val_exec(&tokens[i]) {
            Some(v) => {
                let ghost pold = pending@;
                pending.push(v);
                proof {
                    assert(byte_fallback_from(tail, pold) == byte_fallback_from(
                        w.skip(i + 1),
                        pold.push(v),
                    ));
                }
            },
            None => {
                let ghost prev = dv(out@);
                let ghost pend = pending@;
                let flushed = flush_exec(&pending);
                push_all(&mut out, &flushed);
                let item = copy_chars(&tokens[i]);
                let ghost o2 = out@;
                out.push(item);
                pending = Vec::new();
                proof {
                    lemma_dv_push(o2, item);
                    assert(byte_fallback_from(tail, pend) == flush_run(pend) + seq![w[i as int]]
                        + byte_fallback_from(w.skip(i + 1), seq![]));
                    assert(dv(out@) =~= prev + flush_run(pend) + seq![w[i as int]]);
                    assert(prev + (flush_run(pend) + seq![w[i as int]] + byte_fallback_from(
                        w.skip(i + 1),
                        seq![],
                    )) =~= (prev + flush_run(pend) + seq![w[i as int]]) + byte_fallback_from(
                        w.skip(i + 1),
                        seq![],
                    ));
                }
            },
        }
        i += 1;
    }
    let ghost pend = pending@;
    let flushed = flush_exec(&pending);
    push_all(&mut out, &flushed);
    proof {
        assert(w.skip(w.len() as int) =~= Seq::<Seq<char>>::empty());
        assert(byte_fallback_from(Seq::<Seq<char>>::empty(), pend) == flush_run(pend));
    }
    out
}

// ----------------------------------------------------------------------
// ByteLevel: every character of the joined tokens is mapped through the
// printable byte-level alphabet back to its byte (characters outside the
// alphabet are dropped), and the bytes are decoded as UTF-8 with
// replacement-character substitution. The substitution rule is the one of
// `lossy_decode`: one replacement character per byte at which no scalar
// encoding starts, so a truncated three-byte encoding yields two
// replacement characters, not one.
// ----------------------------------------------------------------------

/// The inverse of the byte-to-printable-character remapping used by
/// byte-level pre-tokenization: printable bytes stand for themselves and
/// the remapped bytes live in three blocks starting at U+0100.
pub open spec fn alphabet_byte(c: char) -> Option<u8> {
    let u = c as u32;
    if (0x21 <= u && u <= 0x7e) || (0xa1 <= u && u <= 0xac) || (0xae <= u && u <= 0xff) {
        Some(u as u8)
    } else if 0x100 <= u && u <= 0x120 {
        Some((u - 0x100) as u8)
    } else if 0x121 <= u && u <= 0x142 {
        Some((u - 0x121 + 0x7f) as u8)
    } else if u == 0x143 {
        Some(0xadu8)
    } else {
        None
    }
}

pub open spec fn alphabet_bytes(t: Seq<char>) -> Seq<u8>
    decreases t.len(),
{
    if t.len() == 0 {
        seq![]
    } else {
        (match alphabet_byte(t[0]) {
            Some(b) => seq![b],
            None => seq![],
        }) + alphabet_bytes(t.drop_first())
    }
}

pub open spec fn byte_level_chain(ts: Seq<Seq<char>>) -> Seq<Seq<char>> {
    seq![lossy_decode(alphabet_bytes(ts.flatten()))]
}

fn alphabet_byte_exec(c: char) -> (r: Option<u8>)
    ensures
        r == alphabet_byte(c),
{
    let u = c as u32;
    if (0x21 <= u && u <= 0x7e) || (0xa1 <= u && u <= 0xac) || (0xae <= u && u <= 0xff) {
        Some(u as u8)
    } else if 0x100 <= u && u <= 0x120 {
        Some((u - 0x100) as u8)
    } else if 0x121 <= u && u <= 0x142 {
        Some((u - 0x121 + 0x7f) as u8)
    } else if u == 0x143 {
        Some(0xad)
    } else {
        None
    }
}

pub fn byte_level_exec(tokens: &Vec<Vec<char>>) -> (r: Vec<Vec<char>>)
    ensures
        dv(r@) == byte_level_chain(dv(tokens@)),
{
    let joined = join_exec(tokens);
    let ghost jv = joined@;
    let mut bytes: Vec<u8> = Vec::new();
    let mut i: usize = 0;
    proof {
        assert(jv.skip(0) =~= jv);
        assert(Seq::<u8>::empty() + alphabet_bytes(jv) =~= alphabet_bytes(jv));
    }
    while i < joined.len()
        invariant
            0 <= i <= jv.len(),
            jv == joined@,
            alphabet_bytes(jv) == bytes@ + alphabet_bytes(jv.skip(i as int)),
        decreases jv.len() - i,
    {
        let ghost tail = jv.skip(i as int);
        let ghost prev = bytes@;
        proof {
            assert(tail[0] == jv[i as int]);
            assert(tail.drop_first() =~= jv.skip(i + 1));
        }
        match alphabet_byte_exec(joined[i]) {
            Some(b) => {
                bytes.push(b);
                proof {
                    assert(alphabet_bytes(tail) == seq![b] + alphabet_bytes(jv.skip(i + 1)));
                    assert(prev + (seq![b] + alphabet_bytes(jv.skip(i + 1))) =~= (prev + seq![b])
                        + alphabet_bytes(jv.skip(i + 1)));
                    assert(bytes@ =~= prev + seq![b]);
                }
            },
            None => {
                proof {
                    assert(alphabet_bytes(tail) == Seq::<u8>::empty() + alphabet_bytes(
                        jv.skip(i + 1),
                    ));
                    assert(Seq::<u8>::empty() + alphabet_bytes(jv.skip(i + 1)) =~= alphabet_bytes(
                        jv.skip(i + 1),
                    ));
                }
            },
        }
        i += 1;
    }
    proof {
        assert(jv.skip(jv.len() as int) =~= Seq::<char>::empty());
        assert(bytes@ + Seq::<u8>::empty() =~= bytes@);
    }
    let decoded = utf8_lossy(&bytes);
    let ghost dvd = decoded@;
    let mut r: Vec<Vec<char>> = Vec::new();
    r.push(decoded);
    proof {
        assert(dv(r@) =~= seq![dvd]);
    }
    r
}

} // verus!

