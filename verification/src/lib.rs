//! SKV: maps written as `key=value` pairs separated by whitespace.
//!
//! Keys are dot-separated key parts; values are booleans, integers (decimal, `0x`, `0o`, `0b`),
//! doubles, strings (quoted or not, with escapes) and, under a schema, enum strings. A [`Schema`]
//! gives the type that each key's value must have, what is done where a key is absent, and what
//! is done with keys it does not know.
//!
//! [`Schema`]: schema::Schema
use vstd::prelude::*;

pub mod assoc;
pub mod chars;
pub mod enum_string;
pub mod error;
pub mod key;
pub mod key_value_pair;
pub mod primitives;
pub mod properties;
pub mod schema;
pub mod skv;
pub mod text;
pub mod value;
pub mod written;

verus! {

} // verus!
