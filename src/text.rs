//! Character sequences: conversion from and to strings, and the search and
//! replace primitives the matchers are built on.
use vstd::prelude::*;

verus! {

/// The characters of `s`, in order.
pub fn chars_of(s: &str) -> (r: Vec<char>)
    ensures
        r@ == s@,
{
    let mut r: Vec<char> = Vec::new();
    for c in it: s.chars()
        invariant
            r@ == it.seq().take(it.index() as int),
    {
        r.push(c);
    }
    r
}

/// Relies on `String: FromIterator<&char>`: the string holds exactly the given characters.
#[verifier::external_body]
pub(crate) fn string_of(v: &Vec<char>) -> (r: String)
    ensures
        r@ == v@,
{
    v.iter().collect()
}


/// `pat` occurs in `s` at position `i`.
pub open spec fn occurs_at(s: Seq<char>, i: int, pat: Seq<char>) -> bool {
    0 <= i && i + pat.len() <= s.len() && s.subrange(i, i + pat.len()) == pat
}

/// `s` with every occurrence of `from` replaced by `to`, scanning left to
/// right and never matching inside a replaced occurrence. An empty `from`
/// replaces nothing.
pub open spec fn replace_all(s: Seq<char>, from: Seq<char>, to: Seq<char>) -> Seq<char>
    decreases s.len(),
{
    if s.len() == 0 {
        s
    } else if from.len() > 0 && occurs_at(s, 0, from) {
        to + replace_all(s.skip(from.len() as int), from, to)
    } else {
        seq![s[0]] + replace_all(s.drop_first(), from, to)
    }
}

pub fn occurs_at_exec(s: &Vec<char>, i: usize, pat: &Vec<char>) -> (r: bool)
    requires
        i <= s.len(),
    ensures
        r == occurs_at(s@, i as int, pat@),
{
    if pat.len() > s.len() - i {
        return false;
    }
    let mut j: usize = 0;
    while j < pat.len()
        invariant
            j <= pat.len(),
            i + pat.len() <= s.len(),
            forall|k: int| 0 <= k < j ==> s@[i + k] == pat@[k],
        decreases pat.len() - j,
    {
        if s[i + j] != pat[j] {
            assert(s@.subrange(i as int, i + pat.len())[j as int] != pat@[j as int]);
            return false;
        }
        j += 1;
    }
    assert(s@.subrange(i as int, i + pat.len()) =~= pat@);
    true
}

/// Appends all of `src` to `dst`.
pub fn append_chars(dst: &mut Vec<char>, src: &Vec<char>)
    ensures
        final(dst)@ == old(dst)@ + src@,
{
    let mut j: usize = 0;
    while j < src.len()
        invariant
            j <= src.len(),
            dst@ == old(dst)@ + src@.take(j as int),
        decreases src.len() - j,
    {
        dst.push(src[j]);
        j += 1;
        assert(src@.take(j as int) =~= src@.take(j - 1) + seq![src@[j - 1]]);
    }
    assert(src@.take(j as int) =~= src@);
}

pub fn replace_all_exec(s: &Vec<char>, from: &Vec<char>, to: &Vec<char>) -> (r: Vec<char>)
    ensures
        r@ == replace_all(s@, from@, to@),
{
    let mut out: Vec<char> = Vec::new();
    let mut i: usize = 0;
    assert(s@.skip(0) =~= s@);
    assert(out@ + replace_all(s@, from@, to@) =~= replace_all(s@, from@, to@));
    while i < s.len()
        invariant
            i <= s.len(),
            replace_all(s@, from@, to@) == out@ + replace_all(s@.skip(i as int), from@, to@),
        decreases s.len() - i,
    {
        let ghost rest = s@.skip(i as int);
        assert(occurs_at(rest, 0, from@) == occurs_at(s@, i as int, from@)) by {
            if i + from@.len() <= s.len() {
                assert(rest.subrange(0, from@.len() as int) =~= s@.subrange(i as int, i + from@.len()));
            }
        }
        if from.len() > 0 && occurs_at_exec(s, i, from) {
            append_chars(&mut out, to);
            assert(rest.skip(from@.len() as int) =~= s@.skip(i + from@.len()));
            i += from.len();
        } else {
            out.push(s[i]);
            assert(rest.drop_first() =~= s@.skip(i + 1));
            i += 1;
        }
    }
    assert(s@.skip(i as int) =~= Seq::<char>::empty());
    assert(out@ + Seq::<char>::empty() =~= out@);
    out
}

/// Length of the first line of `s`, its `\n` included.
pub open spec fn line_len(s: Seq<char>) -> nat
    decreases s.len(),
{
    if s.len() == 0 {
        0
    } else if s[0] == '\n' {
        1
    } else {
        1 + line_len(s.drop_first())
    }
}

pub proof fn lemma_line_len_bounds(s: Seq<char>)
    ensures
        line_len(s) <= s.len(),
        s.len() > 0 ==> line_len(s) >= 1,
    decreases s.len(),
{
    if s.len() > 0 && s[0] != '\n' {
        lemma_line_len_bounds(s.drop_first());
    }
}

/// The lines of `s`, each with its terminator (the last may have none).
pub open spec fn lines_of(s: Seq<char>) -> Seq<Seq<char>>
    decreases s.len(),
    via lines_of_decreases
{
    if s.len() == 0 {
        Seq::empty()
    } else {
        seq![s.take(line_len(s) as int)] + lines_of(s.skip(line_len(s) as int))
    }
}

#[via_fn]
proof fn lines_of_decreases(s: Seq<char>) {
    lemma_line_len_bounds(s);
}

/// The line of `s` that starts at `i` ends at `e`: no `\n` before `e - 1`,
/// and `e` is past a `\n` or at the end.
proof fn lemma_line_len_at(s: Seq<char>, i: int, e: int)
    requires
        0 <= i < e <= s.len(),
        forall|k: int| i <= k < e - 1 ==> s[k] != '\n',
        s[e - 1] == '\n' || e == s.len(),
    ensures
        line_len(s.skip(i)) == e - i,
    decreases e - i,
{
    assert(s.skip(i)[0] == s[i]);
    if s[i] != '\n' && i + 1 < e {
        lemma_line_len_at(s, i + 1, e);
        assert(s.skip(i).drop_first() =~= s.skip(i + 1));
    } else if s[i] != '\n' {
        assert(s.skip(i).drop_first().len() == 0);
        assert(line_len(s.skip(i).drop_first()) == 0);
    }
}

/// The character sequences that a sequence of vectors holds.
pub open spec fn views(v: Seq<Vec<char>>) -> Seq<Seq<char>> {
    v.map_values(|x: Vec<char>| x@)
}

/// Splits `s` into its lines, each keeping its `\n`.
pub fn split_lines(s: &Vec<char>) -> (r: Vec<Vec<char>>)
    ensures
        views(r@) == lines_of(s@),
{
    let mut r: Vec<Vec<char>> = Vec::new();
    let mut start: usize = 0;
    assert(s@.skip(0) =~= s@);
    assert(views(r@) + lines_of(s@) =~= lines_of(s@));
    while start < s.len()
        invariant
            start <= s.len(),
            lines_of(s@) == views(r@) + lines_of(s@.skip(start as int)),
        decreases s.len() - start,
    {
        let mut line: Vec<char> = Vec::new();
        let mut i: usize = start;
        let mut done = false;
        while !done && i < s.len()
            invariant
                start <= i <= s.len(),
                line@ == s@.subrange(start as int, i as int),
                !done ==> forall|k: int| start <= k < i ==> s@[k] != '\n',
                done ==> i > start && s@[i - 1] == '\n'
                    && forall|k: int| start <= k < i - 1 ==> s@[k] != '\n',
            decreases s.len() - i,
        {
            line.push(s[i]);
            if s[i] == '\n' {
                done = true;
            }
            i += 1;
            assert(line@ =~= s@.subrange(start as int, i as int));
        }
        let ghost rest = s@.skip(start as int);
        proof {
            lemma_line_len_at(s@, start as int, i as int);
            assert(rest.take(line_len(rest) as int) =~= line@);
            assert(rest.skip(line_len(rest) as int) =~= s@.skip(i as int));
        }
        let ghost before = views(r@);
        r.push(line);
        assert(views(r@) =~= before.push(line@));
        assert(lines_of(rest) == seq![line@] + lines_of(s@.skip(i as int)));
        assert(before + lines_of(rest) =~= views(r@) + lines_of(s@.skip(i as int)));
        start = i;
    }
    assert(s@.skip(start as int) =~= Seq::<char>::empty());
    assert(views(r@) + Seq::<Seq<char>>::empty() =~= views(r@));
    r
}

pub proof fn lemma_occurs_skip(s: Seq<char>, f: int, j: int, pat: Seq<char>)
    requires
        0 <= f <= s.len(),
        0 <= j,
    ensures
        occurs_at(s.skip(f), j, pat) == occurs_at(s, f + j, pat),
{
    if j + pat.len() <= s.len() - f {
        assert(s.skip(f).subrange(j, j + pat.len()) =~= s.subrange(f + j, f + j + pat.len()));
    }
}

/// The two character vectors are equal.
pub fn chars_eq(a: &Vec<char>, b: &Vec<char>) -> (r: bool)
    ensures
        r == (a@ == b@),
{
    if a.len() != b.len() {
        return false;
    }
    let r = occurs_at_exec(a, 0, b);
    assert(a@.subrange(0, b@.len() as int) =~= a@);
    r
}

/// Joining the lines of `s` gives `s` back.
pub proof fn lemma_lines_flatten(s: Seq<char>)
    ensures
        lines_of(s).flatten() == s,
    decreases s.len(),
{
    if s.len() > 0 {
        lemma_line_len_bounds(s);
        let k = line_len(s) as int;
        lemma_lines_flatten(s.skip(k));
        let l = lines_of(s);
        assert(l.drop_first() =~= lines_of(s.skip(k)));
        assert(s.take(k) + s.skip(k) =~= s);
    }
}

} // verus!
