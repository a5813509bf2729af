//! Errors of the parsers and of the operations on parsed maps.
use vstd::prelude::*;

verus! {

/// What a parser expected where it failed.
#[derive(Clone, Copy, Debug, PartialEq, Eq)]
pub enum ErrorKind {
    /// A key part: an ASCII letter or `_`, then ASCII letters, digits and `_`.
    Key,
    /// The `=` between a key and its value.
    Equals,
    /// A value that the expected type accepts.
    Value,
    /// A key that the schema knows (its unknown keys are errors).
    UnknownKey,
    /// The end of the input, or whitespace before the next pair.
    End,
    /// `true` or `false`, in any case.
    Boolean,
    /// A decimal, hexadecimal, octal or binary integer that fits in `i64`.
    Integer,
    /// A decimal number, `nan`, `inf` or `infinity`.
    Double,
    /// A quoted or unquoted string.
    String,
    /// A non-empty run of lowercase ASCII letters, digits and `_`.
    EnumString,
}

/// A failure to parse: where it happened (a character index) and what was expected there.
#[derive(Clone, Copy, Debug, PartialEq, Eq)]
pub struct ParseError {
    pub offset: usize,
    pub kind: ErrorKind,
}

} // verus!

verus! {

/// An error parsing an SKV key.
#[derive(Clone, Copy, Debug, PartialEq, Eq)]
pub struct KeyParseError;

} // verus!

verus! {

/// Where an error is in the input of a map: a byte offset, and a length (one where it points at a
/// character, zero at the end of the input).
#[derive(Clone, Copy, Debug, PartialEq, Eq)]
pub struct Span {
    pub offset: usize,
    pub length: usize,
}

/// An error parsing an SKV map.
#[derive(Clone, Debug, PartialEq)]
pub enum MapParseError {
    /// The input does not follow the syntax.
    Parsing {
        /// What was expected where parsing failed.
        message: String,
        /// The (trimmed) input, with a space appended so that the end of the input can be pointed at.
        input: String,
        /// Where parsing failed.
        span: Span,
    },
    /// Keys that the schema requires are absent, with their types.
    MissingRequiredKeys(Vec<(crate::key::Key, crate::value::ValueType)>),
}

/// The message of a failure of the given kind at `offset` in `input`: for a missing key part, the
/// key-part label and what it expected there (a non-digit, where a digit stands there; else a
/// non-empty alphanumeric string); for an unknown key that the schema refuses, that the schema
/// does not know it; for any other failure, `error`.
pub open spec fn error_message(kind: ErrorKind, input: Seq<char>, offset: int) -> Seq<char> {
    match kind {
        ErrorKind::Key => if 0 <= offset < input.len() && crate::chars::is_ascii_digit(input[offset]) {
            "invalid key part\nexpected a non-digit character"@
        } else {
            "invalid key part\nexpected a non-empty alphanumeric string"@
        },
        ErrorKind::UnknownKey => "invalid key\nthe schema does not know this key"@,
        _ => "error"@,
    }
}

/// The message of a failure of the given kind at `offset` in `input` (see `error_message`).
pub fn message_of(kind: ErrorKind, input: &[char], offset: usize) -> (r: String)
    ensures
        r@ == error_message(kind, input@, offset as int),
{
    match kind {
        ErrorKind::Key => {
            if offset < input.len() && '0' <= input[offset] && input[offset] <= '9' {
                "invalid key part\nexpected a non-digit character".to_owned()
            } else {
                "invalid key part\nexpected a non-empty alphanumeric string".to_owned()
            }
        },
        ErrorKind::UnknownKey => "invalid key\nthe schema does not know this key".to_owned(),
        _ => "error".to_owned(),
    }
}

impl MapParseError {
    /// A syntax error with the given message, input and span.
    pub fn from_parts(message: String, input: String, span: Span) -> (r: MapParseError)
        ensures
            r matches MapParseError::Parsing { message: m, input: i, span: sp } && m@ == message@
                && i@ == input@ && sp == span,
    {
        MapParseError::Parsing { message, input, span }
    }

    /// The syntax error for a failure `err` to parse the (trimmed) input `input`: the message of
    /// its kind, the input with a space appended, and the span of the character where it failed.
    pub fn from_parse_error(input: &[char], bound: usize, err: ParseError) -> (r: MapParseError)
        requires
            err.offset <= input@.len(),
            vstd::utf8::encode_utf8(input@).len() <= bound,
        ensures
            r matches MapParseError::Parsing { message: m, input: i, span: sp } && m@
                == error_message(err.kind, input@, err.offset as int) && i@ == input@.push(' ') && sp.offset
                == vstd::utf8::encode_utf8(input@.take(err.offset as int)).len() && sp.length == (
            if err.offset < input@.len() {
                1usize
            } else {
                0usize
            }),
            r matches MapParseError::Parsing { input: i, span: sp, .. } && sp.offset + sp.length
                <= vstd::utf8::encode_utf8(i@).len(),
    {
        let offset = crate::text::byte_offset(input, err.offset, bound);
        let length: usize = if err.offset < input.len() {
            1
        } else {
            0
        };
        let mut text = crate::text::string_of(input, 0, input.len());
        crate::text::push_char(&mut text, ' ');
        proof {
            assert(input@.subrange(0, input@.len() as int) =~= input@);
            let p = err.offset as int;
            crate::text::lemma_encode_utf8_concat(input@.take(p), input@.skip(p));
            assert(input@.take(p) + input@.skip(p) =~= input@);
            crate::text::lemma_encode_utf8_len(input@.skip(p));
            crate::text::lemma_encode_utf8_concat(input@, seq![' ']);
            assert(input@ + seq![' '] =~= input@.push(' '));
            crate::text::lemma_encode_utf8_len(seq![' ']);
        }
        MapParseError::from_parts(message_of(err.kind, input, err.offset), text, Span { offset, length })
    }
}

/// Error produced by operations on a parsed SKV map.
#[derive(Clone, Copy, Debug, PartialEq, Eq)]
pub enum MapError {
    /// Accessing a key that isn't present in the map.
    NotFound,
    /// Accessing a value of a specific type but the value present in the map is of a different type.
    WrongType { expected: crate::value::ValueType, found: crate::value::ValueType },
    /// Accessing an enum value whose enum string names no variant of the enum asked for.
    WrongEnum,
}

} // verus!
