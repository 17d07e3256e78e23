//! Tree-shaped values, and their normalization to a pattern tree.
use vstd::prelude::*;
use crate::pattern::{normalize_text, normalize_to_pattern};
use crate::redact::Redactions;
use crate::text::string_of;

verus! {

/// The mathematical form of a `Value`.
pub enum Json {
    Null,
    Bool(bool),
    Number(Seq<char>),
    Str(Seq<char>),
    Array(Seq<Json>),
    Object(Seq<(Seq<char>, Json)>),
}

/// A tree value: a scalar, an array, or an object whose entries keep their
/// order. A number is held as its text.
#[derive(Debug, PartialEq)]
pub enum Value {
    Null,
    Bool(bool),
    Number(String),
    String(String),
    Array(Vec<Value>),
    Object(Vec<(String, Value)>),
}

pub open spec fn model(v: Value) -> Json
    decreases v,
{
    match v {
        Value::Null => Json::Null,
        Value::Bool(b) => Json::Bool(b),
        Value::Number(n) => Json::Number(n@),
        Value::String(s) => Json::Str(s@),
        Value::Array(vs) => Json::Array(models(vs@)),
        Value::Object(es) => Json::Object(entry_models(es@)),
    }
}

pub open spec fn models(vs: Seq<Value>) -> Seq<Json>
    decreases vs,
{
    Seq::new(vs.len(), |i: int| if 0 <= i < vs.len() { model(vs[i]) } else { Json::Null })
}

pub open spec fn entry_models(es: Seq<(String, Value)>) -> Seq<(Seq<char>, Json)>
    decreases es,
{
    Seq::new(
        es.len(),
        |i: int| if 0 <= i < es.len() { (es[i].0@, model(es[i].1)) } else { (Seq::empty(), Json::Null) },
    )
}

pub proof fn lemma_models(vs: Seq<Value>)
    ensures
        models(vs).len() == vs.len(),
        forall|i: int| 0 <= i < vs.len() ==> #[trigger] models(vs)[i] == model(vs[i]),
{
}

pub proof fn lemma_entry_models(es: Seq<(String, Value)>)
    ensures
        entry_models(es).len() == es.len(),
        forall|i: int| 0 <= i < es.len() ==> #[trigger] entry_models(es)[i] == (es[i].0@, model(es[i].1)),
{
}

/// `{...}`: as a value, matches any value; as an array element, any run of
/// elements.
pub open spec fn value_wildcard() -> Seq<char> {
    seq!['{', '.', '.', '.', '}']
}

/// `...`: as an object key with the value wildcard, accepts any other key.
pub open spec fn key_wildcard() -> Seq<char> {
    seq!['.', '.', '.']
}

pub open spec fn is_wild(j: Json) -> bool {
    j == Json::Str(value_wildcard())
}

/// The first index at or after `c` where `a` holds `x`.
pub open spec fn find_elem(a: Seq<Json>, c: int, x: Json) -> Option<int>
    decreases a.len() - c,
{
    if c < 0 || c >= a.len() {
        None
    } else if a[c] == x {
        Some(c)
    } else {
        find_elem(a, c + 1, x)
    }
}

/// The first index at or after `i` of an entry with key `k`.
pub open spec fn find_key(es: Seq<(Seq<char>, Json)>, k: Seq<char>, i: int) -> Option<int>
    decreases es.len() - i,
{
    if i < 0 || i >= es.len() {
        None
    } else if es[i].0 == k {
        Some(i)
    } else {
        find_key(es, k, i + 1)
    }
}

pub proof fn lemma_find_key(es: Seq<(Seq<char>, Json)>, k: Seq<char>, i: int)
    ensures
        find_key(es, k, i) matches Some(m) ==> i <= m < es.len() && es[m].0 == k,
    decreases es.len() - i,
{
    if !(i < 0 || i >= es.len()) && es[i].0 != k {
        lemma_find_key(es, k, i + 1);
    }
}

pub proof fn lemma_find_elem(a: Seq<Json>, c: int, x: Json)
    ensures
        find_elem(a, c, x) matches Some(j) ==> c <= j < a.len(),
    decreases a.len() - c,
{
    if !(c < 0 || c >= a.len()) && a[c] != x {
        lemma_find_elem(a, c + 1, x);
    }
}

/// `es` with `(k, v)` in place of the entry with key `k`, or appended.
pub open spec fn put(es: Seq<(Seq<char>, Json)>, k: Seq<char>, v: Json) -> Seq<(Seq<char>, Json)> {
    match find_key(es, k, 0) {
        Some(i) => es.update(i, (k, v)),
        None => es.push((k, v)),
    }
}

/// The pattern's entries hold the key wildcard with the value wildcard.
pub open spec fn has_key_wildcard(ps: Seq<(Seq<char>, Json)>) -> bool {
    match find_key(ps, key_wildcard(), 0) {
        Some(i) => 0 <= i < ps.len() && is_wild(ps[i].1),
        None => false,
    }
}

/// `a` normalized to the pattern `p`: the value wildcard replaces anything;
/// two strings go through the text normalizer; arrays and objects are
/// walked; any other pair leaves `a` as it is.
pub open spec fn norm_json(a: Json, p: Json, red: Redactions) -> Json
    decreases p, 1int, 0int,
{
    if is_wild(p) {
        Json::Str(value_wildcard())
    } else {
        match a {
            Json::Str(x) => match p {
                Json::Str(y) => Json::Str(normalize_text(x, y, red)),
                _ => a,
            },
            Json::Array(xs) => match p {
                Json::Array(ps) => Json::Array(norm_array(xs, p, 0, 0, red)),
                _ => a,
            },
            Json::Object(xs) => match p {
                Json::Object(ps) => {
                    let r = norm_entries(xs, p, 0, Seq::empty(), red);
                    if has_key_wildcard(ps) {
                        Json::Object(put(r, key_wildcard(), Json::Str(value_wildcard())))
                    } else {
                        Json::Object(r)
                    }
                },
                _ => a,
            },
            _ => a,
        }
    }
}

/// The elements of `a` from `c` on, normalized to the elements of the
/// pattern array `p` from `pi` on. A literal element takes the next actual
/// element. A wildcard that ends the pattern, or stands before another,
/// collapses the rest into one wildcard; any other takes the actual elements
/// up to the first one equal to the next pattern element. Where that element
/// is missing, or the pattern ends, the rest of `a` stays as it is.
pub open spec fn norm_array(a: Seq<Json>, p: Json, pi: int, c: int, red: Redactions) -> Seq<Json>
    decreases p, 0int, (match p {
        Json::Array(ps) => ps.len() - pi,
        _ => 0,
    }),
{
    match p {
        Json::Array(ps) => {
            if pi < 0 || c < 0 || c > a.len() {
                Seq::empty()
            } else if pi >= ps.len() {
                a.skip(c)
            } else if is_wild(ps[pi]) {
                if pi + 1 >= ps.len() || is_wild(ps[pi + 1]) {
                    seq![Json::Str(value_wildcard())]
                } else {
                    match find_elem(a, c, ps[pi + 1]) {
                        Some(j) => seq![Json::Str(value_wildcard())] + norm_array(a, p, pi + 1, j, red),
                        None => a.skip(c),
                    }
                }
            } else if c < a.len() {
                seq![norm_json(a[c], ps[pi], red)] + norm_array(a, p, pi + 1, c + 1, red)
            } else {
                Seq::empty()
            }
        },
        _ => Seq::empty(),
    }
}

/// Folds the actual entries from `i` on into `out`: each key is redacted; an
/// entry whose key the pattern object `p` holds is normalized to the
/// pattern's value; another is dropped where the pattern has the key
/// wildcard, and kept otherwise.
pub open spec fn norm_entries(
    xs: Seq<(Seq<char>, Json)>,
    p: Json,
    i: int,
    out: Seq<(Seq<char>, Json)>,
    red: Redactions,
) -> Seq<(Seq<char>, Json)>
    decreases p, 0int, xs.len() - i,
{
    match p {
        Json::Object(ps) => {
            if i < 0 || i >= xs.len() {
                out
            } else {
                let k = red.redact_spec(xs[i].0);
                match find_key(ps, k, 0) {
                    Some(m) => if 0 <= m < ps.len() {
                        norm_entries(xs, p, i + 1, put(out, k, norm_json(xs[i].1, ps[m].1, red)), red)
                    } else {
                        out
                    },
                    None => if has_key_wildcard(ps) {
                        norm_entries(xs, p, i + 1, out, red)
                    } else {
                        norm_entries(xs, p, i + 1, put(out, k, xs[i].1), red)
                    },
                }
            }
        },
        _ => out,
    }
}

/// A copy of `v`.
pub fn copy_value(v: &Value) -> (r: Value)
    ensures
        model(r) == model(*v),
    decreases v,
{
    match v {
        Value::Null => Value::Null,
        Value::Bool(b) => Value::Bool(*b),
        Value::Number(n) => Value::Number(n.clone()),
        Value::String(s) => Value::String(s.clone()),
        Value::Array(vs) => {
            let mut out: Vec<Value> = Vec::new();
            let mut i: usize = 0;
            while i < vs.len()
                invariant
                    i <= vs@.len(),
                    *v == Value::Array(*vs),
                    models(out@) =~= models(vs@).take(i as int),
                decreases vs@.len() - i,
            {
                assert(decreases_to!(*v => v->Array_0));
                proof {
                    vstd::std_specs::vec::axiom_vec_index_decreases(*vs, i as int);
                }
                let e = copy_value(&vs[i]);
                let ghost before = out@;
                out.push(e);
                assert(out@ == before.push(e));
                i += 1;
                proof {
                    lemma_models(out@);
                    lemma_models(before);
                    lemma_models(vs@);
                }
                assert forall|k: int| 0 <= k < i implies #[trigger] models(out@)[k] == models(vs@).take(i as int)[k] by {
                    if k < i - 1 {
                        assert(out@[k] == before[k]);
                    }
                }
                assert(models(out@) =~= models(vs@).take(i as int));
            }
            assert(models(vs@).take(i as int) =~= models(vs@));
            Value::Array(out)
        },
        Value::Object(es) => {
            let mut out: Vec<(String, Value)> = Vec::new();
            let mut i: usize = 0;
            while i < es.len()
                invariant
                    i <= es@.len(),
                    *v == Value::Object(*es),
                    entry_models(out@) =~= entry_models(es@).take(i as int),
                decreases es@.len() - i,
            {
                assert(decreases_to!(*v => v->Object_0));
                proof {
                    vstd::std_specs::vec::axiom_vec_index_decreases(*es, i as int);
                }
                let e = copy_value(&es[i].1);
                let ghost before = out@;
                let k = es[i].0.clone();
                out.push((k, e));
                assert(out@ == before.push((k, e)));
                i += 1;
                proof {
                    lemma_entry_models(out@);
                    lemma_entry_models(before);
                    lemma_entry_models(es@);
                }
                assert forall|k: int| 0 <= k < i implies #[trigger] entry_models(out@)[k] == entry_models(es@).take(i as int)[k] by {
                    if k < i - 1 {
                        assert(out@[k] == before[k]);
                    }
                }
                assert(entry_models(out@) =~= entry_models(es@).take(i as int));
            }
            assert(entry_models(es@).take(i as int) =~= entry_models(es@));
            Value::Object(out)
        },
    }
}

/// Whether `a` and `b` are the same value.
pub fn value_eq(a: &Value, b: &Value) -> (r: bool)
    ensures
        r == (model(*a) == model(*b)),
    decreases a,
{
    match (a, b) {
        (Value::Null, Value::Null) => true,
        (Value::Bool(x), Value::Bool(y)) => *x == *y,
        (Value::Number(x), Value::Number(y)) => *x == *y,
        (Value::String(x), Value::String(y)) => *x == *y,
        (Value::Array(xs), Value::Array(ys)) => {
            if xs.len() != ys.len() {
                assert(models(xs@).len() != models(ys@).len());
                return false;
            }
            let mut i: usize = 0;
            while i < xs.len()
                invariant
                    i <= xs@.len(),
                    xs@.len() == ys@.len(),
                    *a == Value::Array(*xs),
                    *b == Value::Array(*ys),
                    forall|k: int| 0 <= k < i ==> models(xs@)[k] == models(ys@)[k],
                decreases xs@.len() - i,
            {
                if !value_eq(&xs[i], &ys[i]) {
                    assert(models(xs@)[i as int] != models(ys@)[i as int]);
                    return false;
                }
                i += 1;
            }
            assert(models(xs@) =~= models(ys@));
            true
        },
        (Value::Object(xs), Value::Object(ys)) => {
            if xs.len() != ys.len() {
                assert(entry_models(xs@).len() != entry_models(ys@).len());
                return false;
            }
            let mut i: usize = 0;
            while i < xs.len()
                invariant
                    i <= xs@.len(),
                    xs@.len() == ys@.len(),
                    *a == Value::Object(*xs),
                    *b == Value::Object(*ys),
                    forall|k: int| 0 <= k < i ==> entry_models(xs@)[k] == entry_models(ys@)[k],
                decreases xs@.len() - i,
            {
                if xs[i].0 != ys[i].0 || !value_eq(&xs[i].1, &ys[i].1) {
                    assert(entry_models(xs@)[i as int] != entry_models(ys@)[i as int]);
                    return false;
                }
                i += 1;
            }
            assert(entry_models(xs@) =~= entry_models(ys@));
            true
        },
        _ => false,
    }
}

fn wildcard_string() -> (r: String)
    ensures
        r@ == value_wildcard(),
{
    let w: Vec<char> = vec!['{', '.', '.', '.', '}'];
    assert(w@ =~= value_wildcard());
    string_of(&w)
}

fn key_wildcard_string() -> (r: String)
    ensures
        r@ == key_wildcard(),
{
    let w: Vec<char> = vec!['.', '.', '.'];
    assert(w@ =~= key_wildcard());
    string_of(&w)
}

/// Whether `v` is the value wildcard.
pub fn is_wild_exec(v: &Value) -> (r: bool)
    ensures
        r == is_wild(model(*v)),
{
    match v {
        Value::String(s) => {
            let w = wildcard_string();
            *s == w
        },
        _ => false,
    }
}

/// The index of the first entry of `es` with key `k`.
pub fn find_key_exec(es: &Vec<(String, Value)>, k: &String) -> (r: Option<usize>)
    ensures
        match r {
            Some(i) => i < es@.len() && find_key(entry_models(es@), k@, 0) == Some(i as int),
            None => find_key(entry_models(es@), k@, 0) is None,
        },
{
    let ghost em = entry_models(es@);
    proof {
        lemma_entry_models(es@);
    }
    let mut i: usize = 0;
    while i < es.len()
        invariant
            i <= es@.len(),
            em == entry_models(es@),
            em.len() == es@.len(),
            forall|j: int| 0 <= j < es@.len() ==> #[trigger] em[j] == (es@[j].0@, model(es@[j].1)),
            find_key(em, k@, 0) == find_key(em, k@, i as int),
        decreases es@.len() - i,
    {
        if es[i].0 == *k {
            return Some(i);
        }
        i += 1;
    }
    None
}

/// Puts `(k, v)` in place of the entry of `out` with key `k`, or appends it.
pub fn put_exec(out: &mut Vec<(String, Value)>, k: String, v: Value)
    ensures
        entry_models(final(out)@) == put(entry_models(old(out)@), k@, model(v)),
{
    let ghost before = entry_models(out@);
    proof {
        lemma_entry_models(out@);
    }
    match find_key_exec(out, &k) {
        Some(i) => {
            let ghost kv = k@;
            let ghost mv = model(v);
            out.set(i, (k, v));
            proof {
                lemma_entry_models(out@);
            }
            assert(entry_models(out@) =~= before.update(i as int, (kv, mv)));
        },
        None => {
            let ghost kv = k@;
            let ghost mv = model(v);
            out.push((k, v));
            proof {
                lemma_entry_models(out@);
            }
            assert(entry_models(out@) =~= before.push((kv, mv)));
        },
    }
}

/// Whether the pattern entries `ps` hold the key wildcard with the value
/// wildcard.
pub fn has_key_wildcard_exec(ps: &Vec<(String, Value)>) -> (r: bool)
    ensures
        r == has_key_wildcard(entry_models(ps@)),
{
    let k = key_wildcard_string();
    proof {
        lemma_entry_models(ps@);
    }
    match find_key_exec(ps, &k) {
        Some(i) => is_wild_exec(&ps[i].1),
        None => false,
    }
}

/// `actual` normalized to `pattern` (see `norm_json`).
pub fn normalized(actual: &Value, pattern: &Value, redactions: &Redactions) -> (r: Value)
    ensures
        model(r) == norm_json(model(*actual), model(*pattern), *redactions),
    decreases pattern, 1int,
{
    if is_wild_exec(pattern) {
        return Value::String(wildcard_string());
    }
    match actual {
        Value::String(x) => match pattern {
            Value::String(y) => Value::String(normalize_to_pattern(x.as_str(), y.as_str(), redactions)),
            _ => copy_value(actual),
        },
        Value::Array(xs) => match pattern {
            Value::Array(_) => Value::Array(normalized_array(xs, pattern, redactions)),
            _ => copy_value(actual),
        },
        Value::Object(xs) => match pattern {
            Value::Object(ps) => {
                let mut r = normalized_entries(xs, pattern, redactions);
                if has_key_wildcard_exec(ps) {
                    put_exec(&mut r, key_wildcard_string(), Value::String(wildcard_string()));
                }
                Value::Object(r)
            },
            _ => copy_value(actual),
        },
        _ => copy_value(actual),
    }
}

/// The elements `xs` normalized to the pattern array `pattern` (see
/// `norm_array`).
pub fn normalized_array(xs: &Vec<Value>, pattern: &Value, redactions: &Redactions) -> (r: Vec<Value>)
    requires
        pattern is Array,
    ensures
        models(r@) == norm_array(models(xs@), model(*pattern), 0, 0, *redactions),
    decreases pattern, 0int,
{
    let ps = match pattern {
        Value::Array(ps) => ps,
        _ => {
            return Vec::new();
        },
    };
    let ghost red = *redactions;
    let ghost a = models(xs@);
    let ghost p = model(*pattern);
    let ghost pm = models(ps@);
    proof {
        lemma_models(xs@);
        lemma_models(ps@);
    }
    let mut out: Vec<Value> = Vec::new();
    let mut pi: usize = 0;
    let mut c: usize = 0;
    let mut state: u8 = 0;
    proof {
        lemma_models(out@);
        assert(models(out@) + norm_array(a, p, 0, 0, red) =~= norm_array(a, p, 0, 0, red));
    }
    while state == 0
        invariant
            *pattern == Value::Array(*ps),
            red == *redactions,
            a == models(xs@),
            p == model(*pattern),
            pm == models(ps@),
            p == Json::Array(pm),
            a.len() == xs@.len(),
            pm.len() == ps@.len(),
            forall|i: int| 0 <= i < xs@.len() ==> #[trigger] a[i] == model(xs@[i]),
            forall|i: int| 0 <= i < ps@.len() ==> #[trigger] pm[i] == model(ps@[i]),
            pi <= ps@.len(),
            c <= xs@.len(),
            state <= 2,
            norm_array(a, p, 0, 0, red) == models(out@) + (if state == 0 {
                norm_array(a, p, pi as int, c as int, red)
            } else if state == 2 {
                a.skip(c as int)
            } else {
                Seq::empty()
            }),
        decreases (ps@.len() - pi) as int + if state == 0 { 1int } else { 0int },
    {
        let ghost before = out@;
        proof {
            lemma_models(before);
        }
        if pi >= ps.len() {
            state = 2;
        } else if is_wild_exec(&ps[pi]) {
            if pi + 1 >= ps.len() || is_wild_exec(&ps[pi + 1]) {
                let w = Value::String(wildcard_string());
                out.push(w);
                proof {
                    lemma_models(out@);
                    assert(models(out@) =~= models(before) + seq![Json::Str(value_wildcard())]);
                    assert(models(out@) + Seq::<Json>::empty() =~= models(out@));
                }
                state = 1;
            } else {
                let next = pi + 1;
                let mut j: usize = c;
                let mut found = false;
                while !found && j < xs.len()
                    invariant
                        c <= j <= xs@.len(),
                        next < ps@.len(),
                        a.len() == xs@.len(),
                        pm.len() == ps@.len(),
                        forall|i: int| 0 <= i < xs@.len() ==> #[trigger] a[i] == model(xs@[i]),
                        forall|i: int| 0 <= i < ps@.len() ==> #[trigger] pm[i] == model(ps@[i]),
                        found ==> j < xs@.len() && find_elem(a, c as int, pm[next as int]) == Some(j as int),
                        !found ==> find_elem(a, c as int, pm[next as int]) == find_elem(a, j as int, pm[next as int]),
                    decreases (xs@.len() - j) as int + if found { 0int } else { 1int },
                {
                    if value_eq(&xs[j], &ps[next]) {
                        found = true;
                    } else {
                        j += 1;
                    }
                }
                if found {
                    let w = Value::String(wildcard_string());
                    out.push(w);
                    proof {
                        lemma_models(out@);
                        assert(models(out@) =~= models(before) + seq![Json::Str(value_wildcard())]);
                        assert(models(before) + (seq![Json::Str(value_wildcard())] + norm_array(a, p, next as int, j as int, red))
                            =~= models(out@) + norm_array(a, p, next as int, j as int, red));
                    }
                    c = j;
                    pi = next;
                } else {
                    state = 2;
                }
            }
        } else if c < xs.len() {
            proof {
                assert(decreases_to!(*pattern => pattern->Array_0));
                vstd::std_specs::vec::axiom_vec_index_decreases(*ps, pi as int);
            }
            let e = normalized(&xs[c], &ps[pi], redactions);
            let ghost me = model(e);
            out.push(e);
            proof {
                lemma_models(out@);
                assert(models(out@) =~= models(before) + seq![me]);
                assert(models(before) + (seq![me] + norm_array(a, p, pi + 1, c + 1, red))
                    =~= models(out@) + norm_array(a, p, pi + 1, c + 1, red));
            }
            pi += 1;
            c += 1;
        } else {
            state = 1;
        }
    }
    if state == 2 {
        let ghost head = models(out@);
        let mut k: usize = c;
        assert(a.subrange(c as int, c as int) =~= Seq::<Json>::empty());
        assert(head + Seq::<Json>::empty() =~= head);
        proof {
            lemma_models(out@);
        }
        while k < xs.len()
            invariant
                c <= k <= xs@.len(),
                a.len() == xs@.len(),
                forall|i: int| 0 <= i < xs@.len() ==> #[trigger] a[i] == model(xs@[i]),
                models(out@) == head + a.subrange(c as int, k as int),
            decreases xs@.len() - k,
        {
            let ghost before = out@;
            proof {
                lemma_models(before);
            }
            let e = copy_value(&xs[k]);
            out.push(e);
            proof {
                lemma_models(out@);
                assert(models(out@) =~= models(before).push(a[k as int]));
                assert(a.subrange(c as int, k + 1) =~= a.subrange(c as int, k as int).push(a[k as int]));
            }
            k += 1;
        }
        assert(a.subrange(c as int, k as int) =~= a.skip(c as int));
    } else {
        assert(models(out@) + Seq::<Json>::empty() =~= models(out@));
    }
    out
}

/// The entries `xs` normalized to the pattern object `pattern` (see
/// `norm_entries`), before the key wildcard is put back.
pub fn normalized_entries(xs: &Vec<(String, Value)>, pattern: &Value, redactions: &Redactions) -> (r: Vec<(String, Value)>)
    requires
        pattern is Object,
    ensures
        entry_models(r@) == norm_entries(entry_models(xs@), model(*pattern), 0, Seq::empty(), *redactions),
    decreases pattern, 0int,
{
    let ps = match pattern {
        Value::Object(ps) => ps,
        _ => {
            return Vec::new();
        },
    };
    let ghost red = *redactions;
    let ghost x = entry_models(xs@);
    let ghost p = model(*pattern);
    let ghost pm = entry_models(ps@);
    proof {
        lemma_entry_models(xs@);
        lemma_entry_models(ps@);
    }
    let wild_mode = has_key_wildcard_exec(ps);
    let mut out: Vec<(String, Value)> = Vec::new();
    proof {
        lemma_entry_models(out@);
        assert(entry_models(out@) =~= Seq::<(Seq<char>, Json)>::empty());
    }
    let mut i: usize = 0;
    while i < xs.len()
        invariant
            *pattern == Value::Object(*ps),
            red == *redactions,
            x == entry_models(xs@),
            p == model(*pattern),
            pm == entry_models(ps@),
            p == Json::Object(pm),
            x.len() == xs@.len(),
            pm.len() == ps@.len(),
            forall|j: int| 0 <= j < xs@.len() ==> #[trigger] x[j] == (xs@[j].0@, model(xs@[j].1)),
            forall|j: int| 0 <= j < ps@.len() ==> #[trigger] pm[j] == (ps@[j].0@, model(ps@[j].1)),
            wild_mode == has_key_wildcard(pm),
            i <= xs@.len(),
            norm_entries(x, p, 0, Seq::empty(), red) == norm_entries(x, p, i as int, entry_models(out@), red),
        decreases xs@.len() - i,
    {
        let k = redactions.redact(xs[i].0.as_str());
        match find_key_exec(ps, &k) {
            Some(m) => {
                proof {
                    lemma_find_key(pm, k@, 0);
                    assert(decreases_to!(*pattern => pattern->Object_0));
                    vstd::std_specs::vec::axiom_vec_index_decreases(*ps, m as int);
                }
                let v = normalized(&xs[i].1, &ps[m].1, redactions);
                put_exec(&mut out, k, v);
            },
            None => {
                if !wild_mode {
                    let v = copy_value(&xs[i].1);
                    put_exec(&mut out, k, v);
                }
            },
        }
        i += 1;
    }
    out
}

/// Rewrites `actual` into the wildcard form of `expected` wherever the two
/// match, and leaves it as it is from where they do not.
pub fn normalize_value_matches(actual: &mut Value, expected: &Value, substitutions: &Redactions)
    ensures
        model(*final(actual)) == norm_json(model(*old(actual)), model(*expected), *substitutions),
{
    let r = normalized(actual, expected, substitutions);
    *actual = r;
}

} // verus!
