//! Utilities over character sequences: substring matching, left-to-right
//! replacement, adjacent deduplication, and the punctuation-spacing cleanup
//! shared by several decoders.

use vstd::prelude::*;

verus! {

/// The view of each token in a token list.
pub open spec fn dv(ts: Seq<Vec<char>>) -> Seq<Seq<char>> {
    ts.map_values(|t: Vec<char>| t@)
}

/// `pat` occurs in `t` at position `i`.
pub open spec fn match_at(t: Seq<char>, pat: Seq<char>, i: int) -> bool {
    0 <= i && i + pat.len() <= t.len() && t.subrange(i, i + pat.len() as int) == pat
}

/// `pat` occurs somewhere in `t`.
pub open spec fn occurs(t: Seq<char>, pat: Seq<char>) -> bool {
    exists|i: int| match_at(t, pat, i)
}

pub open spec fn starts_with(t: Seq<char>, pat: Seq<char>) -> bool {
    match_at(t, pat, 0)
}

/// Every occurrence of `pat` in `t` replaced by `rep`, scanning left to
/// right and never rescanning replaced text. An empty pattern matches
/// nothing and leaves `t` unchanged.
pub open spec fn replace_all(t: Seq<char>, pat: Seq<char>, rep: Seq<char>) -> Seq<char>
    decreases t.len(),
{
    if pat.len() == 0 || t.len() == 0 {
        t
    } else if match_at(t, pat, 0) {
        rep + replace_all(t.skip(pat.len() as int), pat, rep)
    } else {
        seq![t[0]] + replace_all(t.skip(1), pat, rep)
    }
}

/// Runs of two or more spaces reduced to a single space.
pub open spec fn collapse_spaces(t: Seq<char>) -> Seq<char>
    decreases t.len(),
{
    if t.len() == 0 {
        t
    } else if t.len() >= 2 && t[0] == ' ' && t[1] == ' ' {
        collapse_spaces(t.skip(1))
    } else {
        seq![t[0]] + collapse_spaces(t.skip(1))
    }
}

/// Adjacent equal tokens reduced to one.
pub open spec fn dedup_adjacent(ts: Seq<Seq<char>>) -> Seq<Seq<char>>
    decreases ts.len(),
{
    if ts.len() == 0 {
        ts
    } else if ts.len() >= 2 && ts[0] == ts[1] {
        dedup_adjacent(ts.skip(1))
    } else {
        seq![ts[0]] + dedup_adjacent(ts.skip(1))
    }
}

/// Tokenization artifacts normalized after joining: the space before
/// common punctuation and contraction suffixes is removed, then runs of
/// spaces are reduced to one.
pub open spec fn cleanup_spec(t: Seq<char>) -> Seq<char> {
    let t1 = replace_all(t, seq![' ', '.'], seq!['.']);
    let t2 = replace_all(t1, seq![' ', '?'], seq!['?']);
    let t3 = replace_all(t2, seq![' ', '!'], seq!['!']);
    let t4 = replace_all(t3, seq![' ', ','], seq![',']);
    let t5 = replace_all(t4, seq![' ', '\'', ' '], seq!['\'']);
    let t6 = replace_all(t5, seq![' ', 'n', '\'', 't'], seq!['n', '\'', 't']);
    let t7 = replace_all(t6, seq![' ', '\'', 'm'], seq!['\'', 'm']);
    let t8 = replace_all(t7, seq![' ', '\'', 's'], seq!['\'', 's']);
    let t9 = replace_all(t8, seq![' ', '\'', 'v', 'e'], seq!['\'', 'v', 'e']);
    let t10 = replace_all(t9, seq![' ', '\'', 'r', 'e'], seq!['\'', 'r', 'e']);
    collapse_spaces(t10)
}

/// A sequence of token views, pushed through [`dv`].
pub proof fn lemma_dv_push(s: Seq<Vec<char>>, x: Vec<char>)
    ensures
        dv(s.push(x)) == dv(s).push(x@),
{
    assert(dv(s.push(x)) =~= dv(s).push(x@));
}

proof fn lemma_match_at_skip(t: Seq<char>, pat: Seq<char>, i: int)
    requires
        0 <= i <= t.len(),
    ensures
        match_at(t, pat, i) == match_at(t.skip(i), pat, 0),
{
    if i + pat.len() <= t.len() {
        assert(t.skip(i).subrange(0, pat.len() as int) =~= t.subrange(i, i + pat.len() as int));
    }
}

pub fn chars_eq(a: &Vec<char>, b: &Vec<char>) -> (r: bool)
    ensures
        r == (a@ == b@),
{
    if a.len() != b.len() {
        return false;
    }
    let mut j: usize = 0;
    while j < a.len()
        invariant
            0 <= j <= a.len(),
            a.len() == b.len(),
            forall|k: int| 0 <= k < j ==> a@[k] == b@[k],
        decreases a.len() - j,
    {
        if a[j] != b[j] {
            return false;
        }
        j += 1;
    }
    proof {
        assert(a@ =~= b@);
    }
    true
}

pub fn copy_chars(t: &Vec<char>) -> (r: Vec<char>)
    ensures
        r@ == t@,
{
    let mut r: Vec<char> = Vec::new();
    let mut j: usize = 0;
    proof {
        assert(r@ =~= t@.subrange(0, 0));
    }
    while j < t.len()
        invariant
            0 <= j <= t.len(),
            r@ == t@.subrange(0, j as int),
        decreases t.len() - j,
    {
        r.push(t[j]);
        proof {
            assert(r@ =~= t@.subrange(0, j + 1 as int));
        }
        j += 1;
    }
    proof {
        assert(r@ =~= t@);
    }
    r
}

pub fn match_at_exec(t: &Vec<char>, pat: &Vec<char>, i: usize) -> (r: bool)
    ensures
        r == match_at(t@, pat@, i as int),
{
    if i > t.len() || pat.len() > t.len() - i {
        return false;
    }
    let mut j: usize = 0;
    while j < pat.len()
        invariant
            0 <= j <= pat.len(),
            i + pat.len() <= t.len(),
            forall|k: int| 0 <= k < j ==> t@[i + k] == pat@[k],
        decreases pat.len() - j,
    {
        if t[i + j] != pat[j] {
            assert(t@.subrange(i as int, i + pat@.len()) != pat@) by {
                assert(t@.subrange(i as int, i + pat@.len())[j as int] != pat@[j as int]);
            }
            return false;
        }
        j += 1;
    }
    proof {
        assert(t@.subrange(i as int, i + pat@.len()) =~= pat@);
    }
    true
}

pub fn contains_pat(t: &Vec<char>, pat: &Vec<char>) -> (r: bool)
    ensures
        r == occurs(t@, pat@),
{
    if pat.len() == 0 {
        proof {
            assert(t@.subrange(0, 0) =~= pat@);
            assert(match_at(t@, pat@, 0));
        }
        return true;
    }
    let mut i: usize = 0;
    while i < t.len()
        invariant
            0 <= i <= t.len(),
            forall|k: int| 0 <= k < i ==> !match_at(t@, pat@, k),
        decreases t.len() - i,
    {
        if match_at_exec(t, pat, i) {
            assert(occurs(t@, pat@));
            return true;
        }
        i += 1;
    }
    assert(forall|k: int| match_at(t@, pat@, k) ==> 0 <= k < t@.len());
    false
}

pub fn replace_all_exec(t: &Vec<char>, pat: &Vec<char>, rep: &Vec<char>) -> (r: Vec<char>)
    ensures
        r@ == replace_all(t@, pat@, rep@),
{
    if pat.len() == 0 {
        return copy_chars(t);
    }
    let mut r: Vec<char> = Vec::new();
    let mut i: usize = 0;
    proof {
        assert(t@.skip(0) =~= t@);
        assert(Seq::<char>::empty() + replace_all(t@, pat@, rep@) =~= replace_all(t@, pat@, rep@));
    }
    while i < t.len()
        invariant
            0 <= i <= t.len(),
            pat@.len() > 0,
            replace_all(t@, pat@, rep@) == r@ + replace_all(t@.skip(i as int), pat@, rep@),
        decreases t.len() - i,
    {
        let ghost prev = r@;
        let ghost tail = t@.skip(i as int);
        proof {
            lemma_match_at_skip(t@, pat@, i as int);
        }
        if match_at_exec(t, pat, i) {
            let mut j: usize = 0;
            while j < rep.len()
                invariant
                    0 <= j <= rep.len(),
                    r@ == prev + rep@.subrange(0, j as int),
                decreases rep.len() - j,
            {
                r.push(rep[j]);
                proof {
                    assert(r@ =~= prev + rep@.subrange(0, j + 1 as int));
                }
                j += 1;
            }
            proof {
                assert(rep@.subrange(0, rep@.len() as int) =~= rep@);
                assert(tail.skip(pat@.len() as int) =~= t@.skip(i + pat@.len()));
                assert(replace_all(tail, pat@, rep@) == rep@ + replace_all(
                    t@.skip(i + pat@.len()),
                    pat@,
                    rep@,
                ));
                assert(prev + (rep@ + replace_all(t@.skip(i + pat@.len()), pat@, rep@)) =~= (prev
                    + rep@) + replace_all(t@.skip(i + pat@.len()), pat@, rep@));
            }
            i += pat.len();
        } else {
            r.push(t[i]);
            proof {
                assert(tail[0] == t@[i as int]);
                assert(tail.skip(1) =~= t@.skip(i + 1));
                assert(replace_all(tail, pat@, rep@) == seq![t@[i as int]] + replace_all(
                    t@.skip(i + 1),
                    pat@,
                    rep@,
                ));
                assert(prev + (seq![t@[i as int]] + replace_all(t@.skip(i + 1), pat@, rep@)) =~= (
                prev + seq![t@[i as int]]) + replace_all(t@.skip(i + 1), pat@, rep@));
                assert(r@ =~= prev + seq![t@[i as int]]);
            }
            i += 1;
        }
    }
    proof {
        assert(t@.skip(t@.len() as int) =~= Seq::<char>::empty());
        assert(r@ + Seq::<char>::empty() =~= r@);
    }
    r
}

pub fn collapse_spaces_exec(t: &Vec<char>) -> (r: Vec<char>)
    ensures
        r@ == collapse_spaces(t@),
{
    let mut r: Vec<char> = Vec::new();
    let mut i: usize = 0;
    proof {
        assert(t@.skip(0) =~= t@);
        assert(Seq::<char>::empty() + collapse_spaces(t@) =~= collapse_spaces(t@));
    }
    while i < t.len()
        invariant
            0 <= i <= t.len(),
            collapse_spaces(t@) == r@ + collapse_spaces(t@.skip(i as int)),
        decreases t.len() - i,
    {
        let ghost prev = r@;
        let ghost tail = t@.skip(i as int);
        proof {
            assert(tail[0] == t@[i as int]);
            assert(tail.skip(1) =~= t@.skip(i + 1));
            if i + 1 < t@.len() {
                assert(tail[1] == t@[i + 1]);
            }
        }
        if i + 1 < t.len() && t[i] == ' ' && t[i + 1] == ' ' {
            proof {
                assert(collapse_spaces(tail) == collapse_spaces(t@.skip(i + 1)));
            }
        } else {
            r.push(t[i]);
            proof {
                assert(collapse_spaces(tail) == seq![t@[i as int]] + collapse_spaces(
                    t@.skip(i + 1),
                ));
                assert(prev + (seq![t@[i as int]] + collapse_spaces(t@.skip(i + 1))) =~= (prev
                    + seq![t@[i as int]]) + collapse_spaces(t@.skip(i + 1)));
                assert(r@ =~= prev + seq![t@[i as int]]);
            }
        }
        i += 1;
    }
    proof {
        assert(t@.skip(t@.len() as int) =~= Seq::<char>::empty());
        assert(r@ + Seq::<char>::empty() =~= r@);
    }
    r
}

pub fn cleanup_exec(t: &Vec<char>) -> (r: Vec<char>)
    ensures
        r@ == cleanup_spec(t@),
{
    let p1: Vec<char> = vec![' ', '.'];
    let r1: Vec<char> = vec!['.'];
    let p2: Vec<char> = vec![' ', '?'];
    let r2: Vec<char> = vec!['?'];
    let p3: Vec<char> = vec![' ', '!'];
    let r3: Vec<char> = vec!['!'];
    let p4: Vec<char> = vec![' ', ','];
    let r4: Vec<char> = vec![','];
    let p5: Vec<char> = vec![' ', '\'', ' '];
    let r5: Vec<char> = vec!['\''];
    let p6: Vec<char> = vec![' ', 'n', '\'', 't'];
    let r6: Vec<char> = vec!['n', '\'', 't'];
    let p7: Vec<char> = vec![' ', '\'', 'm'];
    let r7: Vec<char> = vec!['\'', 'm'];
    let p8: Vec<char> = vec![' ', '\'', 's'];
    let r8: Vec<char> = vec!['\'', 's'];
    let p9: Vec<char> = vec![' ', '\'', 'v', 'e'];
    let r9: Vec<char> = vec!['\'', 'v', 'e'];
    let p10: Vec<char> = vec![' ', '\'', 'r', 'e'];
    let r10: Vec<char> = vec!['\'', 'r', 'e'];
    proof {
        assert(p1@ =~= seq![' ', '.'] && r1@ =~= seq!['.']);
        assert(p2@ =~= seq![' ', '?'] && r2@ =~= seq!['?']);
        assert(p3@ =~= seq![' ', '!'] && r3@ =~= seq!['!']);
        assert(p4@ =~= seq![' ', ','] && r4@ =~= seq![',']);
        assert(p5@ =~= seq![' ', '\'', ' '] && r5@ =~= seq!['\'']);
        assert(p6@ =~= seq![' ', 'n', '\'', 't'] && r6@ =~= seq!['n', '\'', 't']);
        assert(p7@ =~= seq![' ', '\'', 'm'] && r7@ =~= seq!['\'', 'm']);
        assert(p8@ =~= seq![' ', '\'', 's'] && r8@ =~= seq!['\'', 's']);
        assert(p9@ =~= seq![' ', '\'', 'v', 'e'] && r9@ =~= seq!['\'', 'v', 'e']);
        assert(p10@ =~= seq![' ', '\'', 'r', 'e'] && r10@ =~= seq!['\'', 'r', 'e']);
    }
    let t1 = replace_all_exec(t, &p1, &r1);
    let t2 = replace_all_exec(&t1, &p2, &r2);
    let t3 = replace_all_exec(&t2, &p3, &r3);
    let t4 = replace_all_exec(&t3, &p4, &r4);
    let t5 = replace_all_exec(&t4, &p5, &r5);
    let t6 = replace_all_exec(&t5, &p6, &r6);
    let t7 = replace_all_exec(&t6, &p7, &r7);
    let t8 = replace_all_exec(&t7, &p8, &r8);
    let t9 = replace_all_exec(&t8, &p9, &r9);
    let t10 = replace_all_exec(&t9, &p10, &r10);
    collapse_spaces_exec(&t10)
}

pub fn dedup_adjacent_exec(ts: &Vec<Vec<char>>) -> (r: Vec<Vec<char>>)
    ensures
        dv(r@) == dedup_adjacent(dv(ts@)),
{
    let mut r: Vec<Vec<char>> = Vec::new();
    let mut i: usize = 0;
    let ghost w = dv(ts@);
    proof {
        assert(w.skip(0) =~= w);
        assert(dv(r@) =~= Seq::<Seq<char>>::empty());
        assert(Seq::<Seq<char>>::empty() + dedup_adjacent(w) =~= dedup_adjacent(w));
    }
    while i < ts.len()
        invariant
            0 <= i <= ts.len(),
            w == dv(ts@),
            dedup_adjacent(w) == dv(r@) + dedup_adjacent(w.skip(i as int)),
        decreases ts.len() - i,
    {
        let ghost prev = dv(r@);
        let ghost tail = w.skip(i as int);
        proof {
            assert(tail[0] == w[i as int] && w[i as int] == ts@[i as int]@);
            assert(tail.skip(1) =~= w.skip(i + 1));
            if i + 1 < ts@.len() {
                assert(tail[1] == w[i + 1] && w[i + 1] == ts@[i + 1]@);
            }
        }
        if i + 1 < ts.len() && chars_eq(&ts[i], &ts[i + 1]) {
            proof {
                assert(dedup_adjacent(tail) == dedup_adjacent(w.skip(i + 1)));
            }
        } else {
            let item = copy_chars(&ts[i]);
            proof {
                assert(dedup_adjacent(tail) == seq![w[i as int]] + dedup_adjacent(w.skip(i + 1)));
                assert(prev + (seq![w[i as int]] + dedup_adjacent(w.skip(i + 1))) =~= (prev
                    + seq![w[i as int]]) + dedup_adjacent(w.skip(i + 1)));
            }
            let ghost rold = r@;
            r.push(item);
            proof {
                lemma_dv_push(rold, item);
                assert(prev + seq![w[i as int]] =~= prev.push(w[i as int]));
            }
        }
        i += 1;
    }
    proof {
        assert(w.skip(w.len() as int) =~= Seq::<Seq<char>>::empty());
        assert(dv(r@) + Seq::<Seq<char>>::empty() =~= dv(r@));
    }
    r
}

/// All tokens joined into one character sequence.
pub fn join_exec(ts: &Vec<Vec<char>>) -> (r: Vec<char>)
    ensures
        r@ == dv(ts@).flatten(),
{
    let mut r: Vec<char> = Vec::new();
    let mut i: usize = 0;
    let ghost w = dv(ts@);
    while i < ts.len()
        invariant
            0 <= i <= ts.len(),
            w == dv(ts@),
            r@ == w.subrange(0, i as int).flatten(),
        decreases ts.len() - i,
    {
        let ghost prev = r@;
        let mut j: usize = 0;
        while j < ts[i].len()
            invariant
                0 <= j <= ts@[i as int]@.len(),
                0 <= i < ts.len(),
                r@ == prev + ts@[i as int]@.subrange(0, j as int),
            decreases ts@[i as int]@.len() - j,
        {
            r.push(ts[i][j]);
            proof {
                assert(r@ =~= prev + ts@[i as int]@.subrange(0, j + 1 as int));
            }
            j += 1;
        }
        proof {
            assert(ts@[i as int]@.subrange(0, ts@[i as int]@.len() as int) =~= ts@[i as int]@);
            assert(w.subrange(0, i as int).push(w[i as int]) =~= w.subrange(0, i + 1 as int));
            w.subrange(0, i as int).lemma_flatten_push(w[i as int]);
            assert(w[i as int] == ts@[i as int]@);
        }
        i += 1;
    }
    proof {
        assert(w.subrange(0, w.len() as int) =~= w);
    }
    r
}

} // verus!
