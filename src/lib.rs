//! Normalizes captured output to an expected pattern.
//!
//! A pattern may hold wildcards: `...` on a line of its own elides whole
//! lines, `[..]` any run of characters within a line, and in trees `{...}`
//! stands for any value or any run of array elements, while a `"..."` key
//! with that value accepts any other keys. Wherever the output matches, it
//! takes the pattern's form; from where it does not, it is kept as it is, so
//! that a diff of the two shows what differs.
use vstd::prelude::*;

pub mod text;
pub mod redact;
pub mod pattern;
pub mod value;
pub mod data;

verus! {

} // verus!
