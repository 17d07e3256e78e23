//! Captured data of several shapes, and the filter that normalizes it to an
//! expected value.
use vstd::prelude::*;
use crate::pattern::{normalize_text, normalize_to_pattern};
use crate::redact::Redactions;
use crate::value::{model, norm_json, normalize_value_matches, Value};

verus! {

/// A captured value, by shape.
#[derive(Debug, PartialEq)]
pub enum Data {
    /// Loading the data failed, with this message.
    Error(String),
    Binary(Vec<u8>),
    Text(String),
    Json(Value),
    /// A sequence of values, one per line, held as an array.
    JsonLines(Value),
    /// Text that is rendered as a terminal screenshot.
    TermSvg(String),
}

/// The text form of a text-shaped value; none for the other shapes.
pub open spec fn render_spec(d: Data) -> Option<Seq<char>> {
    match d {
        Data::Text(t) => Some(t@),
        Data::TermSvg(t) => Some(t@),
        _ => None,
    }
}

impl Data {
    /// The text form of a text-shaped value.
    pub fn render(&self) -> (r: Option<String>)
        ensures
            match r {
                Some(s) => render_spec(*self) == Some(s@),
                None => render_spec(*self) is None,
            },
    {
        match self {
            Data::Text(t) => Some(t.clone()),
            Data::TermSvg(t) => Some(t.clone()),
            _ => None,
        }
    }
}

/// Adjusts captured data to an expected value: the data adopts the
/// wildcard syntax of the expected value wherever it matches it, with the
/// redactions applied.
pub struct NormalizeToExpected<'a> {
    substitutions: &'a Redactions,
    pattern: &'a Data,
}

impl<'a> NormalizeToExpected<'a> {
    pub closed spec fn substitutions(&self) -> Redactions {
        *self.substitutions
    }

    pub closed spec fn pattern(&self) -> Data {
        *self.pattern
    }

    pub fn new(substitutions: &'a Redactions, pattern: &'a Data) -> (r: Self)
        ensures
            r.substitutions() == *substitutions,
            r.pattern() == *pattern,
    {
        NormalizeToExpected { substitutions, pattern }
    }

    /// `data` normalized to the expected value. Text-shaped data is
    /// normalized to the expected value's text form, where it has one; tree
    /// data to the expected value's tree, where it is one; anything else is
    /// returned as it is.
    pub fn filter(&self, data: Data) -> (r: Data)
        ensures
            match data {
                Data::Text(t) => match render_spec(self.pattern()) {
                    Some(p) => r matches Data::Text(n) && n@ == normalize_text(t@, p, self.substitutions()),
                    None => r == data,
                },
                Data::TermSvg(t) => match render_spec(self.pattern()) {
                    Some(p) => r matches Data::TermSvg(n) && n@ == normalize_text(t@, p, self.substitutions()),
                    None => r == data,
                },
                Data::Json(v) => match self.pattern() {
                    Data::Json(e) => r matches Data::Json(n) && model(n) == norm_json(model(v), model(e), self.substitutions()),
                    _ => r == data,
                },
                Data::JsonLines(v) => match self.pattern() {
                    Data::Json(e) => r matches Data::JsonLines(n) && model(n) == norm_json(model(v), model(e), self.substitutions()),
                    _ => r == data,
                },
                _ => r == data,
            },
    {
        match data {
            Data::Text(t) => match self.pattern.render() {
                Some(p) => Data::Text(normalize_to_pattern(t.as_str(), p.as_str(), self.substitutions)),
                None => Data::Text(t),
            },
            Data::TermSvg(t) => match self.pattern.render() {
                Some(p) => Data::TermSvg(normalize_to_pattern(t.as_str(), p.as_str(), self.substitutions)),
                None => Data::TermSvg(t),
            },
            Data::Json(v) => match self.pattern {
                Data::Json(e) => {
                    let mut v = v;
                    normalize_value_matches(&mut v, e, self.substitutions);
                    Data::Json(v)
                },
                _ => Data::Json(v),
            },
            Data::JsonLines(v) => match self.pattern {
                Data::Json(e) => {
                    let mut v = v;
                    normalize_value_matches(&mut v, e, self.substitutions);
                    Data::JsonLines(v)
                },
                _ => Data::JsonLines(v),
            },
            Data::Error(e) => Data::Error(e),
            Data::Binary(b) => Data::Binary(b),
        }
    }
}

} // verus!
