//! A set of redactions: placeholders that stand for volatile text.
//!
//! `redact` replaces each registered value in a text by its placeholder;
//! `clear` removes, from a pattern, the placeholders registered with an empty
//! value, so that they match nothing.
use vstd::prelude::*;
use crate::text::{append_chars, chars_of, replace_all, replace_all_exec, string_of};

verus! {

/// A placeholder is `[` then upper-case letters or `_`, then `]`.
pub open spec fn valid_placeholder(p: Seq<char>) -> bool {
    &&& p.len() >= 2
    &&& p[0] == '['
    &&& p[p.len() - 1] == ']'
    &&& forall|i: int| 1 <= i < p.len() - 1 ==> ('A' <= #[trigger] p[i] <= 'Z' || p[i] == '_')
}

/// Why a placeholder was refused.
#[derive(Debug, Clone, Copy, PartialEq, Eq, Structural)]
pub enum PlaceholderError {
    /// It is not enclosed in `[` and `]`.
    NotBracketed,
    /// Between the brackets it holds something other than `A`-`Z` or `_`.
    BadCharacter,
}

pub struct Substitution {
    pub placeholder: Vec<char>,
    pub value: Vec<char>,
}

/// Applies each `(value, placeholder)` pair in turn, from the first.
pub open spec fn redact_with(subs: Seq<(Seq<char>, Seq<char>)>, s: Seq<char>) -> Seq<char>
    decreases subs.len(),
{
    if subs.len() == 0 {
        s
    } else {
        redact_with(subs.drop_first(), replace_all(s, subs[0].0, subs[0].1))
    }
}

/// Removes each placeholder in turn, from the first.
pub open spec fn clear_with(unused: Seq<Seq<char>>, s: Seq<char>) -> Seq<char>
    decreases unused.len(),
{
    if unused.len() == 0 {
        s
    } else {
        clear_with(unused.drop_first(), replace_all(s, unused[0], Seq::empty()))
    }
}

pub struct Redactions {
    subs: Vec<Substitution>,
    unused: Vec<Vec<char>>,
}

impl Redactions {
    /// The `(value, placeholder)` pairs, in the order they are applied.
    pub closed spec fn subs(&self) -> Seq<(Seq<char>, Seq<char>)> {
        self.subs@.map_values(|x: Substitution| (x.value@, x.placeholder@))
    }

    /// The placeholders registered with an empty value.
    pub closed spec fn unused(&self) -> Seq<Seq<char>> {
        self.unused@.map_values(|x: Vec<char>| x@)
    }

    /// Longer values are tried first; every value is non-empty and every
    /// placeholder valid.
    pub open spec fn wf(&self) -> bool {
        &&& forall|i: int, j: int|
            0 <= i < j < self.subs().len() ==> #[trigger] self.subs()[i].0.len()
                >= #[trigger] self.subs()[j].0.len()
        &&& forall|i: int|
            0 <= i < self.subs().len() ==> #[trigger] self.subs()[i].0.len() > 0
                && valid_placeholder(self.subs()[i].1)
        &&& forall|i: int| 0 <= i < self.unused().len() ==> valid_placeholder(#[trigger] self.unused()[i])
    }

    pub open spec fn redact_spec(&self, s: Seq<char>) -> Seq<char> {
        redact_with(self.subs(), s)
    }

    pub open spec fn clear_spec(&self, s: Seq<char>) -> Seq<char> {
        clear_with(self.unused(), s)
    }

    /// An empty set: redacts and clears nothing.
    pub fn new() -> (r: Self)
        ensures
            r.wf(),
            r.subs() == Seq::<(Seq<char>, Seq<char>)>::empty(),
            r.unused() == Seq::<Seq<char>>::empty(),
    {
        let r = Redactions { subs: Vec::new(), unused: Vec::new() };
        assert(r.subs() =~= Seq::<(Seq<char>, Seq<char>)>::empty());
        assert(r.unused() =~= Seq::<Seq<char>>::empty());
        r
    }

    /// Registers `value` under `placeholder`. A non-empty value goes before
    /// the first registered value that is shorter; an empty one makes the
    /// placeholder match nothing in patterns.
    pub fn insert(&mut self, placeholder: &str, value: &str) -> (r: Result<(), PlaceholderError>)
        requires
            old(self).wf(),
        ensures
            final(self).wf(),
            r is Ok <==> valid_placeholder(placeholder@),
            r == Err::<(), _>(PlaceholderError::NotBracketed) <==> !(placeholder@.len() >= 2
                && placeholder@[0] == '[' && placeholder@[placeholder@.len() - 1] == ']'),
            r is Err ==> final(self).subs() == old(self).subs() && final(self).unused() == old(self).unused(),
            r is Ok && value@.len() == 0 ==> final(self).subs() == old(self).subs()
                && final(self).unused() == old(self).unused().push(placeholder@),
            r is Ok && value@.len() > 0 ==> final(self).unused() == old(self).unused()
                && exists|j: int|
                0 <= j <= old(self).subs().len()
                && final(self).subs() == old(self).subs().insert(j, (value@, placeholder@))
                && (forall|k: int| 0 <= k < j ==> #[trigger] old(self).subs()[k].0.len() >= value@.len())
                && (forall|k: int| j <= k < old(self).subs().len() ==> #[trigger] old(self).subs()[k].0.len() < value@.len()),
    {
        let p = chars_of(placeholder);
        let v = chars_of(value);
        let n = p.len();
        if n < 2 || p[0] != '[' || p[n - 1] != ']' {
            return Err(PlaceholderError::NotBracketed);
        }
        let mut i: usize = 1;
        while i < n - 1
            invariant
                1 <= i <= n - 1,
                n == p@.len(),
                p@ == placeholder@,
                v@ == value@,
                self == old(self),
                self.wf(),
                p@[0] == '[' && p@[n - 1] == ']',
                forall|k: int| 1 <= k < i ==> ('A' <= #[trigger] p@[k] <= 'Z' || p@[k] == '_'),
            decreases n - 1 - i,
        {
            let c = p[i];
            if !(('A' <= c && c <= 'Z') || c == '_') {
                assert(!('A' <= p@[i as int] <= 'Z' || p@[i as int] == '_'));
                return Err(PlaceholderError::BadCharacter);
            }
            i += 1;
        }
        assert(valid_placeholder(p@));
        if v.len() == 0 {
            self.unused.push(p);
            assert(self.unused() =~= old(self).unused().push(placeholder@));
            assert(self.subs() == old(self).subs());
            assert forall|k: int| 0 <= k < self.unused().len() implies valid_placeholder(#[trigger] self.unused()[k]) by {
                if k < old(self).unused().len() {
                    assert(self.unused()[k] == old(self).unused()[k]);
                }
            }
            return Ok(());
        }
        let mut j: usize = 0;
        while j < self.subs.len() && self.subs[j].value.len() >= v.len()
            invariant
                j <= self.subs@.len(),
                self == old(self),
                forall|k: int| 0 <= k < j ==> #[trigger] self.subs()[k].0.len() >= v@.len(),
            decreases self.subs@.len() - j,
        {
            j += 1;
        }
        proof {
            if j < self.subs@.len() {
                assert forall|k: int| j <= k < self.subs().len() implies #[trigger] self.subs()[k].0.len() < v@.len() by {
                    assert(self.subs()[k].0.len() <= self.subs()[j as int].0.len());
                }
            }
        }
        self.subs.insert(j, Substitution { placeholder: p, value: v });
        assert(self.subs() =~= old(self).subs().insert(j as int, (value@, placeholder@)));
        Ok(())
    }

    /// `input` with each registered value replaced by its placeholder.
    pub fn redact(&self, input: &str) -> (r: String)
        ensures
            r@ == self.redact_spec(input@),
    {
        string_of(&self.redact_chars(&chars_of(input)))
    }

    pub fn redact_chars(&self, input: &Vec<char>) -> (r: Vec<char>)
        ensures
            r@ == self.redact_spec(input@),
    {
        let mut cur: Vec<char> = Vec::new();
        append_chars(&mut cur, input);
        let mut i: usize = 0;
        assert(self.subs().skip(0) =~= self.subs());
        while i < self.subs.len()
            invariant
                i <= self.subs@.len(),
                self.redact_spec(input@) == redact_with(self.subs().skip(i as int), cur@),
            decreases self.subs@.len() - i,
        {
            assert(self.subs().skip(i as int).drop_first() =~= self.subs().skip(i + 1));
            cur = replace_all_exec(&cur, &self.subs[i].value, &self.subs[i].placeholder);
            i += 1;
        }
        cur
    }

    /// `pattern` with each placeholder registered with an empty value removed.
    pub fn clear(&self, pattern: &str) -> (r: String)
        ensures
            r@ == self.clear_spec(pattern@),
    {
        string_of(&self.clear_chars(&chars_of(pattern)))
    }

    pub fn clear_chars(&self, pattern: &Vec<char>) -> (r: Vec<char>)
        ensures
            r@ == self.clear_spec(pattern@),
    {
        let mut cur: Vec<char> = Vec::new();
        append_chars(&mut cur, pattern);
        let empty: Vec<char> = Vec::new();
        let mut i: usize = 0;
        assert(self.unused().skip(0) =~= self.unused());
        while i < self.unused.len()
            invariant
                i <= self.unused@.len(),
                empty@ == Seq::<char>::empty(),
                self.clear_spec(pattern@) == clear_with(self.unused().skip(i as int), cur@),
            decreases self.unused@.len() - i,
        {
            assert(self.unused().skip(i as int).drop_first() =~= self.unused().skip(i + 1));
            cur = replace_all_exec(&cur, &self.unused[i], &empty);
            i += 1;
        }
        cur
    }
}

} // verus!
