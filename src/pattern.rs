//! Matching one line against one pattern line, and normalizing a text to a
//! pattern line by line.
use vstd::prelude::*;
use vstd::seq_lib::lemma_flatten_concat;
use crate::redact::Redactions;
use crate::text::{
    append_chars, chars_eq, chars_of, lemma_lines_flatten, lemma_occurs_skip, lines_of, occurs_at,
    occurs_at_exec, split_lines, string_of, views,
};

verus! {

/// The inline wildcard `[..]`: any run of characters within a line.
pub open spec fn inline_wildcard() -> Seq<char> {
    seq!['[', '.', '.', ']']
}

/// Puts `c` in front of the first element of `r`.
pub open spec fn prepend_first(c: Seq<char>, r: Seq<Seq<char>>) -> Seq<Seq<char>> {
    r.update(0, c + r[0])
}

/// The literal sections of `p` between inline wildcards, as `str::split`
/// gives them: never empty, and `n` wildcards give `n + 1` sections.
pub open spec fn split_sections(p: Seq<char>) -> Seq<Seq<char>>
    decreases p.len(),
{
    if p.len() == 0 {
        seq![Seq::empty()]
    } else if occurs_at(p, 0, inline_wildcard()) {
        seq![Seq::empty()] + split_sections(p.skip(4))
    } else {
        prepend_first(seq![p[0]], split_sections(p.drop_first()))
    }
}

pub proof fn lemma_split_sections_nonempty(p: Seq<char>)
    ensures
        split_sections(p).len() >= 1,
    decreases p.len(),
{
    if p.len() > 0 && !occurs_at(p, 0, inline_wildcard()) {
        lemma_split_sections_nonempty(p.drop_first());
    }
}

/// The leftmost position at or after `i` where `pat` occurs in `s`.
pub open spec fn find_from(s: Seq<char>, pat: Seq<char>, i: int) -> Option<int>
    decreases s.len() + 1 - i,
{
    if i < 0 || i + pat.len() > s.len() {
        None
    } else if occurs_at(s, i, pat) {
        Some(i)
    } else {
        find_from(s, pat, i + 1)
    }
}

pub proof fn lemma_find_from(s: Seq<char>, pat: Seq<char>, i: int)
    ensures
        find_from(s, pat, i) matches Some(k) ==> i <= k && occurs_at(s, k, pat),
    decreases s.len() + 1 - i,
{
    if !(i < 0 || i + pat.len() > s.len()) && !occurs_at(s, i, pat) {
        lemma_find_from(s, pat, i + 1);
    }
}

/// `x` is a suffix of `s`.
pub open spec fn ends_with(s: Seq<char>, x: Seq<char>) -> bool {
    occurs_at(s, s.len() - x.len(), x)
}

/// What is left of a line, `rem`, takes the sections after the first: each
/// but the last at its leftmost occurrence, the last as a suffix.
pub open spec fn sections_match_rest(rem: Seq<char>, secs: Seq<Seq<char>>) -> bool
    decreases secs.len(),
{
    if secs.len() <= 1 {
        secs.len() == 1 && ends_with(rem, secs[0])
    } else {
        match find_from(rem, secs[0], 0) {
            Some(k) => sections_match_rest(rem.skip(k + secs[0].len()), secs.drop_first()),
            None => false,
        }
    }
}

/// A line takes the sections of a pattern: with one section it is that
/// section; else it starts with the first and the rest take the others.
pub open spec fn sections_match(line: Seq<char>, secs: Seq<Seq<char>>) -> bool {
    if secs.len() == 1 {
        line == secs[0]
    } else {
        secs.len() >= 2 && occurs_at(line, 0, secs[0]) && sections_match_rest(
            line.skip(secs[0].len() as int),
            secs.drop_first(),
        )
    }
}

/// `line` satisfies the pattern line `pattern`: it is equal to it, or it
/// takes the sections of the cleared pattern.
pub open spec fn line_matches_spec(line: Seq<char>, pattern: Seq<char>, red: Redactions) -> bool {
    line == pattern || sections_match(line, split_sections(red.clear_spec(pattern)))
}

/// Splits `p` on the inline wildcard.
pub fn split_sections_exec(p: &Vec<char>) -> (r: Vec<Vec<char>>)
    ensures
        views(r@) == split_sections(p@),
{
    let wild: Vec<char> = vec!['[', '.', '.', ']'];
    assert(wild@ =~= inline_wildcard());
    let mut secs: Vec<Vec<char>> = Vec::new();
    let mut cur: Vec<char> = Vec::new();
    let mut i: usize = 0;
    proof {
        lemma_split_sections_nonempty(p@);
        assert(p@.skip(0) =~= p@);
        assert(cur@ + split_sections(p@)[0] =~= split_sections(p@)[0]);
        assert(views(secs@) + prepend_first(cur@, split_sections(p@)) =~= split_sections(p@));
    }
    while i < p.len()
        invariant
            i <= p.len(),
            wild@ == inline_wildcard(),
            split_sections(p@) == views(secs@) + prepend_first(cur@, split_sections(p@.skip(i as int))),
        decreases p.len() - i,
    {
        let ghost rest = p@.skip(i as int);
        let ghost before = views(secs@);
        proof {
            lemma_occurs_skip(p@, i as int, 0, inline_wildcard());
            assert(rest[0] == p@[i as int]);
        }
        if occurs_at_exec(p, i, &wild) {
            proof {
                lemma_split_sections_nonempty(rest.skip(4));
                assert(rest.skip(4) =~= p@.skip(i + 4));
                let r = split_sections(rest.skip(4));
                assert(Seq::<char>::empty() + r[0] =~= r[0]);
                assert(prepend_first(Seq::empty(), r) =~= r);
                assert(prepend_first(cur@, seq![Seq::empty()] + r) =~= seq![cur@] + r);
            }
            secs.push(cur);
            cur = Vec::new();
            assert(views(secs@) =~= before.push(secs@[secs@.len() - 1]@));
            assert(before + (seq![secs@[secs@.len() - 1]@] + split_sections(rest.skip(4))) =~=
                views(secs@) + split_sections(rest.skip(4)));
            i += 4;
        } else {
            proof {
                lemma_split_sections_nonempty(rest.drop_first());
                assert(rest.drop_first() =~= p@.skip(i + 1));
                let r = split_sections(rest.drop_first());
                assert(cur@ + (seq![p@[i as int]] + r[0]) =~= cur@.push(p@[i as int]) + r[0]);
                assert(prepend_first(cur@, prepend_first(seq![p@[i as int]], r)) =~=
                    prepend_first(cur@.push(p@[i as int]), r));
            }
            cur.push(p[i]);
            i += 1;
        }
    }
    proof {
        assert(p@.skip(i as int) =~= Seq::<char>::empty());
        assert(cur@ + Seq::<char>::empty() =~= cur@);
        assert(prepend_first(cur@, seq![Seq::<char>::empty()]) =~= seq![cur@]);
    }
    let ghost before = views(secs@);
    secs.push(cur);
    assert(views(secs@) =~= before.push(secs@[secs@.len() - 1]@));
    secs
}

/// The leftmost occurrence of `pat` in `s` at or after `from`.
pub fn find_exec(s: &Vec<char>, pat: &Vec<char>, from: usize) -> (r: Option<usize>)
    requires
        from <= s.len(),
    ensures
        match r {
            Some(k) => from <= k <= s.len() && find_from(s@.skip(from as int), pat@, 0) == Some(
                k - from,
            ),
            None => find_from(s@.skip(from as int), pat@, 0) is None,
        },
{
    let ghost rest = s@.skip(from as int);
    let mut i: usize = from;
    while pat.len() <= s.len() - i
        invariant
            from <= i <= s.len(),
            rest.len() == s.len() - from,
            rest == s@.skip(from as int),
            find_from(rest, pat@, 0) == find_from(rest, pat@, i - from),
        decreases s.len() - i,
    {
        proof {
            lemma_occurs_skip(s@, from as int, i - from, pat@);
        }
        if occurs_at_exec(s, i, pat) {
            return Some(i);
        }
        if pat.len() == 0 {
            assert(s@.subrange(i as int, i as int) =~= pat@);
        }
        i += 1;
    }
    None
}

/// Whether `line` takes the sections `secs` (see `sections_match`).
pub fn sections_match_exec(line: &Vec<char>, secs: &Vec<Vec<char>>) -> (r: bool)
    requires
        secs@.len() >= 1,
    ensures
        r == sections_match(line@, views(secs@)),
{
    let ghost vs = views(secs@);
    if secs.len() == 1 {
        return chars_eq(line, &secs[0]);
    }
    if !occurs_at_exec(line, 0, &secs[0]) {
        return false;
    }
    let mut pos: usize = secs[0].len();
    let mut j: usize = 1;
    assert(vs.drop_first() =~= vs.skip(1));
    while j < secs.len() - 1
        invariant
            pos <= line.len(),
            1 <= j < secs@.len(),
            vs == views(secs@),
            sections_match(line@, vs) == sections_match_rest(line@.skip(pos as int), vs.skip(j as int)),
        decreases secs@.len() - j,
    {
        let ghost rem = line@.skip(pos as int);
        assert(vs.skip(j as int)[0] == secs@[j as int]@);
        assert(vs.skip(j as int).drop_first() =~= vs.skip(j + 1));
        match find_exec(line, &secs[j], pos) {
            Some(k) => {
                proof {
                    lemma_find_from(rem, secs@[j as int]@, 0);
                }
                assert(rem.skip(k - pos + secs@[j as int]@.len()) =~= line@.skip(k + secs@[j as int]@.len()));
                pos = k + secs[j].len();
            },
            None => {
                return false;
            },
        }
        j += 1;
    }
    let last = &secs[j];
    assert(vs.skip(j as int).len() == 1);
    assert(vs.skip(j as int)[0] == last@);
    if line.len() - pos < last.len() {
        return false;
    }
    proof {
        lemma_occurs_skip(line@, pos as int, line.len() - pos - last@.len(), last@);
    }
    occurs_at_exec(line, line.len() - last.len(), last)
}

/// Whether `line` satisfies the pattern line `pattern`, on characters.
pub fn line_matches_chars(line: &Vec<char>, pattern: &Vec<char>, redactions: &Redactions) -> (r: bool)
    ensures
        r == line_matches_spec(line@, pattern@, *redactions),
{
    if chars_eq(line, pattern) {
        return true;
    }
    let cleared = redactions.clear_chars(pattern);
    let secs = split_sections_exec(&cleared);
    proof {
        lemma_split_sections_nonempty(cleared@);
    }
    sections_match_exec(line, &secs)
}

/// Whether `line` satisfies the pattern line `pattern`: equal to it, or,
/// once the pattern is cleared, equal outside its `[..]` wildcards, each of
/// which takes any run of characters.
pub fn line_matches(line: &str, pattern: &str, redactions: &Redactions) -> (r: bool)
    ensures
        r == line_matches_spec(line@, pattern@, *redactions),
{
    line_matches_chars(&chars_of(line), &chars_of(pattern), redactions)
}

/// The line elision marker: `...` on a line of its own.
pub open spec fn is_line_elide_spec(line: Seq<char>) -> bool {
    line == seq!['.', '.', '.', '\n'] || line == seq!['.', '.', '.']
}

/// The first line of `a`, from index `i` on, that satisfies the pattern
/// line `pl`.
pub open spec fn first_match(a: Seq<Seq<char>>, i: int, pl: Seq<char>, red: Redactions) -> Option<int>
    decreases a.len() - i,
{
    if i < 0 || i >= a.len() {
        None
    } else if line_matches_spec(a[i], pl, red) {
        Some(i)
    } else {
        first_match(a, i + 1, pl, red)
    }
}

/// Walks the pattern lines `p` from `pi` against the actual lines `a` from
/// `ai`. Gives the pattern lines taken, and the actual line where the walk
/// stopped: a literal line takes one matching actual line; an elision marker
/// skips to the first actual line that the next pattern line takes, or, when
/// it is the last pattern line, to the end. The walk stops at the first
/// pattern line that cannot be taken.
pub open spec fn walk(
    a: Seq<Seq<char>>,
    p: Seq<Seq<char>>,
    pi: int,
    ai: int,
    red: Redactions,
) -> (Seq<Seq<char>>, int)
    decreases p.len() - pi,
{
    if pi < 0 || pi >= p.len() {
        (Seq::empty(), ai)
    } else if is_line_elide_spec(p[pi]) {
        if pi + 1 < p.len() {
            match first_match(a, ai, p[pi + 1], red) {
                Some(j) => {
                    let w = walk(a, p, pi + 1, j, red);
                    (seq![p[pi]] + w.0, w.1)
                },
                None => (Seq::empty(), ai),
            }
        } else {
            (seq![p[pi]], a.len() as int)
        }
    } else if 0 <= ai < a.len() && line_matches_spec(a[ai], p[pi], red) {
        let w = walk(a, p, pi + 1, ai + 1, red);
        (seq![p[pi]] + w.0, w.1)
    } else {
        (Seq::empty(), ai)
    }
}

/// `input` normalized to `pattern`: `input` itself when the two are equal;
/// else the pattern lines that the walk takes over the lines of the redacted
/// input, followed by the redacted input lines from where the walk stopped.
pub open spec fn normalize_text(input: Seq<char>, pattern: Seq<char>, red: Redactions) -> Seq<char> {
    if input == pattern {
        input
    } else {
        let a = lines_of(red.redact_spec(input));
        let w = walk(a, lines_of(pattern), 0, 0, red);
        w.0.flatten() + a.skip(w.1).flatten()
    }
}

pub proof fn lemma_first_match(a: Seq<Seq<char>>, i: int, pl: Seq<char>, red: Redactions)
    ensures
        first_match(a, i, pl, red) matches Some(j) ==> i <= j < a.len(),
    decreases a.len() - i,
{
    if !(i < 0 || i >= a.len()) && !line_matches_spec(a[i], pl, red) {
        lemma_first_match(a, i + 1, pl, red);
    }
}

pub proof fn lemma_walk_bounds(a: Seq<Seq<char>>, p: Seq<Seq<char>>, pi: int, ai: int, red: Redactions)
    requires
        0 <= ai <= a.len(),
        0 <= pi <= p.len(),
    ensures
        ai <= walk(a, p, pi, ai, red).1 <= a.len(),
        exists|m: int| pi <= m <= p.len() && walk(a, p, pi, ai, red).0 == #[trigger] p.subrange(pi, m),
    decreases p.len() - pi,
{
    let w = walk(a, p, pi, ai, red);
    if pi >= p.len() {
        assert(w.0 =~= p.subrange(pi, pi));
    } else if is_line_elide_spec(p[pi]) {
        if pi + 1 < p.len() {
            lemma_first_match(a, ai, p[pi + 1], red);
            match first_match(a, ai, p[pi + 1], red) {
                Some(j) => {
                    lemma_walk_bounds(a, p, pi + 1, j, red);
                    let m = choose|m: int| pi + 1 <= m <= p.len() && walk(a, p, pi + 1, j, red).0 == #[trigger] p.subrange(pi + 1, m);
                    assert(w.0 =~= p.subrange(pi, m));
                },
                None => {
                    assert(w.0 =~= p.subrange(pi, pi));
                },
            }
        } else {
            assert(w.0 =~= p.subrange(pi, pi + 1));
        }
    } else if 0 <= ai < a.len() && line_matches_spec(a[ai], p[pi], red) {
        lemma_walk_bounds(a, p, pi + 1, ai + 1, red);
        let m = choose|m: int| pi + 1 <= m <= p.len() && walk(a, p, pi + 1, ai + 1, red).0 == #[trigger] p.subrange(pi + 1, m);
        assert(w.0 =~= p.subrange(pi, m));
    } else {
        assert(w.0 =~= p.subrange(pi, pi));
    }
}

/// Whether `line` is the line elision marker.
pub fn is_line_elide_chars(line: &Vec<char>) -> (r: bool)
    ensures
        r == is_line_elide_spec(line@),
{
    let n = line.len();
    if n == 3 || n == 4 {
        let r = line[0] == '.' && line[1] == '.' && line[2] == '.' && (n == 3 || line[3] == '\n');
        if r {
            if n == 3 {
                assert(line@ =~= seq!['.', '.', '.']);
            } else {
                assert(line@ =~= seq!['.', '.', '.', '\n']);
            }
        }
        r
    } else {
        false
    }
}

/// Whether `line` is the line elision marker, `...` with or without its `\n`.
pub fn is_line_elide(line: &str) -> (r: bool)
    ensures
        r == is_line_elide_spec(line@),
{
    is_line_elide_chars(&chars_of(line))
}

/// `input` normalized to `pattern`, on characters (see `normalize_text`).
pub fn normalize_to_pattern_chars(input: &Vec<char>, pattern: &Vec<char>, redactions: &Redactions) -> (r: Vec<char>)
    ensures
        r@ == normalize_text(input@, pattern@, *redactions),
{
    let mut out: Vec<char> = Vec::new();
    if chars_eq(input, pattern) {
        append_chars(&mut out, input);
        return out;
    }
    let redacted = redactions.redact_chars(input);
    let a = split_lines(&redacted);
    let p = split_lines(pattern);
    let ghost red = *redactions;
    let ghost va = views(a@);
    let ghost vp = views(p@);
    let ghost emitted: Seq<Seq<char>> = Seq::empty();
    let mut pi: usize = 0;
    let mut ai: usize = 0;
    let mut done = false;
    while !done && pi < p.len()
        invariant
            va == views(a@),
            vp == views(p@),
            va.len() == a@.len(),
            vp.len() == p@.len(),
            red == *redactions,
            pi <= p.len(),
            ai <= a.len(),
            out@ == emitted.flatten(),
            walk(va, vp, 0, 0, red).0 == emitted + walk(va, vp, pi as int, ai as int, red).0,
            walk(va, vp, 0, 0, red).1 == walk(va, vp, pi as int, ai as int, red).1,
            done ==> walk(va, vp, pi as int, ai as int, red) == (Seq::<Seq<char>>::empty(), ai as int),
        decreases (p.len() - pi) as int + if done { 0int } else { 1int },
    {
        assert(vp[pi as int] == p@[pi as int]@);
        if is_line_elide_chars(&p[pi]) {
            if pi + 1 < p.len() {
                let next = pi + 1;
                assert(vp[pi + 1] == p@[pi + 1]@);
                let mut j: usize = ai;
                let mut found = false;
                while !found && j < a.len()
                    invariant
                        ai <= j <= a.len(),
                        va == views(a@),
                        va.len() == a@.len(),
                        vp == views(p@),
                        pi + 1 < p@.len(),
                        next == pi + 1,
                        red == *redactions,
                        found ==> j < a.len() && first_match(va, ai as int, vp[pi + 1], red) == Some(j as int),
                        !found ==> first_match(va, ai as int, vp[pi + 1], red) == first_match(va, j as int, vp[pi + 1], red),
                    decreases (a.len() - j) as int + if found { 0int } else { 1int },
                {
                    assert(va[j as int] == a@[j as int]@);
                    if line_matches_chars(&a[j], &p[next], redactions) {
                        found = true;
                    } else {
                        j += 1;
                    }
                }
                if found {
                    append_chars(&mut out, &p[pi]);
                    proof {
                        emitted.lemma_flatten_push(vp[pi as int]);
                        assert(emitted.push(vp[pi as int]) + walk(va, vp, pi + 1, j as int, red).0 =~=
                            emitted + (seq![vp[pi as int]] + walk(va, vp, pi + 1, j as int, red).0));
                        emitted = emitted.push(vp[pi as int]);
                    }
                    ai = j;
                    pi += 1;
                } else {
                    done = true;
                }
            } else {
                append_chars(&mut out, &p[pi]);
                proof {
                    emitted.lemma_flatten_push(vp[pi as int]);
                    assert(emitted.push(vp[pi as int]) =~= emitted + seq![vp[pi as int]]);
                    emitted = emitted.push(vp[pi as int]);
                    assert(emitted + Seq::<Seq<char>>::empty() =~= emitted);
                }
                ai = a.len();
                pi += 1;
            }
        } else if ai < a.len() && line_matches_chars(&a[ai], &p[pi], redactions) {
            assert(va[ai as int] == a@[ai as int]@);
            append_chars(&mut out, &p[pi]);
            proof {
                emitted.lemma_flatten_push(vp[pi as int]);
                assert(emitted.push(vp[pi as int]) + walk(va, vp, pi + 1, ai + 1, red).0 =~=
                    emitted + (seq![vp[pi as int]] + walk(va, vp, pi + 1, ai + 1, red).0));
                emitted = emitted.push(vp[pi as int]);
            }
            ai += 1;
            pi += 1;
        } else {
            if ai < a.len() {
                assert(va[ai as int] == a@[ai as int]@);
            }
            done = true;
        }
    }
    assert(emitted + Seq::<Seq<char>>::empty() =~= emitted);
    let ghost head = out@;
    let mut k: usize = ai;
    assert(va.skip(ai as int).flatten() == Seq::<Seq<char>>::empty().flatten() + va.skip(ai as int).flatten());
    while k < a.len()
        invariant
            ai <= k <= a.len(),
            va == views(a@),
            va.len() == a@.len(),
            out@ == head + va.subrange(ai as int, k as int).flatten(),
        decreases a.len() - k,
    {
        append_chars(&mut out, &a[k]);
        proof {
            va.subrange(ai as int, k as int).lemma_flatten_push(va[k as int]);
            assert(va.subrange(ai as int, k as int).push(va[k as int]) =~= va.subrange(ai as int, k + 1));
        }
        k += 1;
    }
    assert(va.subrange(ai as int, k as int) =~= va.skip(ai as int));
    out
}

/// `input` normalized to `pattern`: each line of the redacted input that
/// the pattern takes is replaced by the pattern's own line, elided runs by
/// one `...`; from the first line that the pattern does not take, the
/// redacted input is kept as it is.
pub fn normalize_to_pattern(input: &str, pattern: &str, redactions: &Redactions) -> (r: String)
    ensures
        r@ == normalize_text(input@, pattern@, *redactions),
{
    string_of(&normalize_to_pattern_chars(&chars_of(input), &chars_of(pattern), redactions))
}

/// Normalizing a pattern to itself gives the pattern back, whatever the
/// redactions.
pub proof fn lemma_normalize_self(p: Seq<char>, red: Redactions)
    ensures
        normalize_text(p, p, red) == p,
{
}

/// Normalization loses nothing of the input: the result is a run of whole
/// pattern lines followed by the redacted input from some point on, every
/// character of it, in order.
pub proof fn lemma_no_loss(input: Seq<char>, pattern: Seq<char>, red: Redactions)
    ensures
        input != pattern ==> exists|m: int, c: int|
            0 <= m <= lines_of(pattern).len() && 0 <= c <= red.redact_spec(input).len()
                && normalize_text(input, pattern, red) == #[trigger] lines_of(pattern).take(m).flatten()
                + #[trigger] red.redact_spec(input).skip(c),
{
    if input != pattern {
        let t = red.redact_spec(input);
        let a = lines_of(t);
        let p = lines_of(pattern);
        lemma_walk_bounds(a, p, 0, 0, red);
        let w = walk(a, p, 0, 0, red);
        let m = choose|m: int| 0 <= m <= p.len() && w.0 == #[trigger] p.subrange(0, m);
        assert(p.subrange(0, m) =~= p.take(m));
        lemma_lines_flatten(t);
        assert(a =~= a.take(w.1) + a.skip(w.1));
        lemma_flatten_concat(a.take(w.1), a.skip(w.1));
        let c = a.take(w.1).flatten().len() as int;
        assert(t.skip(c) =~= a.skip(w.1).flatten());
        assert(normalize_text(input, pattern, red) == p.take(m).flatten() + t.skip(c));
    }
}

} // verus!
