//! Enum strings: the text of an enum value in a schema, and the trait of enums that use them.
use vstd::prelude::*;

use crate::chars::{is_ascii_digit, is_ascii_lower};
use crate::text::{string_of, to_chars};

verus! {

/// A character that may appear in an enum string: a lowercase ASCII letter, an ASCII digit
/// or `_`.
pub open spec fn is_enum_char(c: char) -> bool {
    is_ascii_lower(c) || is_ascii_digit(c) || c == '_'
}

/// Whether `t` is a valid enum string: non-empty, of enum characters only.
pub open spec fn is_enum_text(t: Seq<char>) -> bool {
    t.len() > 0 && forall|k: int| 0 <= k < t.len() ==> is_enum_char(#[trigger] t[k])
}

/// A non-empty ASCII string containing only lowercase alphanumeric characters and underscores.
///
/// Intended to prevent crazy enums being used in schemas.
#[derive(Debug, PartialEq, Eq, Hash)]
pub struct EnumString {
    text: String,
}

impl View for EnumString {
    type V = Seq<char>;

    closed spec fn view(&self) -> Seq<char> {
        self.text@
    }
}

/// Produced when trying to create an [`EnumString`] from an invalid string.
#[derive(Clone, Copy, Debug, PartialEq, Eq)]
pub struct EnumStringError;

impl EnumString {
    /// Every enum string has a valid text.
    #[verifier::type_invariant]
    pub open spec fn inv(self) -> bool {
        is_enum_text(self@)
    }

    /// Checks if the given character is a valid character in an [`EnumString`].
    pub fn is_valid_char(ch: char) -> (r: bool)
        ensures
            r == is_enum_char(ch),
    {
        ('a' <= ch && ch <= 'z') || ('0' <= ch && ch <= '9') || ch == '_'
    }

    /// Creates an [`EnumString`] where `s` is a valid one.
    pub fn new(s: &str) -> (r: Result<EnumString, EnumStringError>)
        ensures
            r is Ok <==> is_enum_text(s@),
            r matches Ok(e) ==> e@ == s@,
    {
        let c = to_chars(s);
        assert(c@.subrange(0, c@.len() as int) =~= c@);
        Self::from_chars(&c, 0, c.len())
    }

    /// Creates an [`EnumString`] from `s[from..to]` where that is a valid one.
    pub fn from_chars(s: &[char], from: usize, to: usize) -> (r: Result<EnumString, EnumStringError>)
        requires
            from <= to <= s@.len(),
        ensures
            r is Ok <==> is_enum_text(s@.subrange(from as int, to as int)),
            r matches Ok(e) ==> e@ == s@.subrange(from as int, to as int),
    {
        if from == to {
            return Err(EnumStringError);
        }
        let mut i = from;
        while i < to
            invariant
                from <= i <= to <= s@.len(),
                forall|k: int| from <= k < i ==> is_enum_char(#[trigger] s@[k]),
            decreases to - i,
        {
            if !Self::is_valid_char(s[i]) {
                assert(s@.subrange(from as int, to as int)[i - from] == s@[i as int]);
                return Err(EnumStringError);
            }
            i = i + 1;
        }
        let text = string_of(s, from, to);
        assert forall|k: int| 0 <= k < text@.len() implies is_enum_char(#[trigger] text@[k]) by {
            assert(text@[k] == s@[from + k]);
        }
        Ok(EnumString { text })
    }

    /// The text of the enum string.
    pub fn as_str(&self) -> (r: &str)
        ensures
            r@ == self@,
    {
        self.text.as_str()
    }

    /// Whether two enum strings have the same text.
    pub fn same(&self, other: &EnumString) -> (r: bool)
        ensures
            r == (self@ == other@),
    {
        self.text == other.text
    }

    /// A copy of this enum string.
    pub fn copy(&self) -> (r: EnumString)
        ensures
            r@ == self@,
    {
        proof {
            use_type_invariant(self);
        }
        EnumString { text: self.text.clone() }
    }
}

impl Clone for EnumString {
    fn clone(&self) -> (r: EnumString)
        ensures
            r@ == self@,
    {
        self.copy()
    }
}

impl std::str::FromStr for EnumString {
    type Err = EnumStringError;

    fn from_str(s: &str) -> (r: Result<EnumString, EnumStringError>)
        ensures
            r is Ok <==> is_enum_text(s@),
            r matches Ok(e) ==> e@ == s@,
    {
        EnumString::new(s)
    }
}

impl From<EnumString> for String {
    fn from(value: EnumString) -> (r: String)
        ensures
            r@ == value@,
    {
        value.text
    }
}

impl vstd::std_specs::convert::FromSpecImpl<EnumString> for String {
    open spec fn obeys_from_spec() -> bool {
        true
    }

    closed spec fn from_spec(v: EnumString) -> String {
        v.text
    }
}

/// The string that an enum string converts to holds its text.
pub proof fn lemma_string_from_enum_string(e: EnumString)
    ensures
        <String as vstd::std_specs::convert::FromSpec<EnumString>>::from_spec(e)@ == e@,
{
}

/// Implemented by enums that can be used as values in an SKV schema.
///
/// [`Self::ENUM_STRINGS`] lists the enum string of each variant; each should be a valid
/// [`EnumString`] (the default [`Self::enum_strings`] leaves out one that is not).
pub trait SkvEnum: Sized {
    const ENUM_STRINGS: &'static [&'static str];

    /// The enum strings of the variants, each once: the valid texts of [`Self::ENUM_STRINGS`]
    /// (see [`enum_strings_of`]). The default body gives these; an impl that gives its own must
    /// give them too.
    fn enum_strings() -> (r: Vec<EnumString>)
        ensures
            enum_texts(r@).no_duplicates(),
            forall|i: int| 0 <= i < r@.len() ==> is_enum_text(#[trigger] r@[i]@),
            forall|i: int| 0 <= i < r@.len() ==> texts_of(Self::ENUM_STRINGS@).contains(#[trigger] r@[i]@),
            forall|k: int|
                0 <= k < Self::ENUM_STRINGS@.len() && is_enum_text(#[trigger] Self::ENUM_STRINGS@[k]@)
                    ==> enum_texts(r@).contains(Self::ENUM_STRINGS@[k]@),
    {
        enum_strings_of(Self::ENUM_STRINGS)
    }

    /// The enum string of this variant: one of [`Self::ENUM_STRINGS`].
    fn to_enum_string(&self) -> (r: EnumString)
        ensures
            texts_of(Self::ENUM_STRINGS@).contains(r@),
    ;

    /// The variant whose enum string is `s`, if there is one.
    fn from_enum_string(s: &EnumString) -> Option<Self>;
}

/// The texts of `names`.
pub open spec fn texts_of(names: Seq<&str>) -> Seq<Seq<char>> {
    names.map_values(|s: &str| s@)
}

/// The texts of the enum strings `v`.
pub open spec fn enum_texts(v: Seq<EnumString>) -> Seq<Seq<char>> {
    v.map_values(|e: EnumString| e@)
}

/// The valid enum strings among `names`, each once, in the order of their first occurrence.
pub fn enum_strings_of(names: &[&str]) -> (r: Vec<EnumString>)
    ensures
        enum_texts(r@).no_duplicates(),
        forall|i: int| 0 <= i < r@.len() ==> texts_of(names@).contains(#[trigger] r@[i]@),
        forall|i: int| 0 <= i < r@.len() ==> is_enum_text(#[trigger] r@[i]@),
        forall|k: int|
            0 <= k < names@.len() && is_enum_text(#[trigger] names@[k]@) ==> enum_texts(
                r@,
            ).contains(names@[k]@),
{
    let mut r: Vec<EnumString> = Vec::new();
    let ghost mut idx: Seq<int> = seq![];
    let mut k: usize = 0;
    while k < names.len()
        invariant
            k <= names@.len(),
            forall|i: int, j: int| 0 <= i < j < r@.len() ==> r@[i]@ != r@[j]@,
            idx.len() == r@.len(),
            forall|i: int|
                0 <= i < r@.len() ==> 0 <= #[trigger] idx[i] < k && r@[i]@ == names@[idx[i]]@,
            forall|i: int| 0 <= i < r@.len() ==> is_enum_text(#[trigger] r@[i]@),
            forall|m: int|
                0 <= m < k && is_enum_text(#[trigger] names@[m]@) ==> exists|i: int|
                    0 <= i < r@.len() && r@[i]@ == names@[m]@,
        decreases names@.len() - k,
    {
        let ghost old_r = r@;
        let ghost old_idx = idx;
        match EnumString::new(names[k]) {
            Ok(e) => {
                if !contains_enum_string(&r, &e) {
                    r.push(e);
                    proof {
                        idx = idx.push(k as int);
                        assert(r@[r@.len() - 1] == e);
                    }
                }
            },
            Err(_) => {},
        }
        proof {
            assert forall|i: int| 0 <= i < r@.len() implies 0 <= #[trigger] idx[i] < k + 1
                && r@[i]@ == names@[idx[i]]@ by {
                if i < old_r.len() {
                    assert(r@[i] == old_r[i]);
                    assert(idx[i] == old_idx[i]);
                }
            }
            assert forall|i: int| 0 <= i < r@.len() implies is_enum_text(#[trigger] r@[i]@) by {
                if i < old_r.len() {
                    assert(r@[i] == old_r[i]);
                }
            }
            assert forall|m: int|
                0 <= m < k + 1 && is_enum_text(#[trigger] names@[m]@) implies exists|i: int|
                0 <= i < r@.len() && r@[i]@ == names@[m]@ by {
                if m < k {
                    let i = choose|i: int| 0 <= i < old_r.len() && old_r[i]@ == names@[m]@;
                    assert(r@[i] == old_r[i]);
                }
            }
        }
        k = k + 1;
    }
    assert forall|i: int| 0 <= i < r@.len() implies texts_of(names@).contains(#[trigger] r@[i]@) by {
        assert(texts_of(names@)[idx[i]] == r@[i]@);
    }
    assert forall|m: int|
        0 <= m < names@.len() && is_enum_text(#[trigger] names@[m]@) implies enum_texts(
            r@,
        ).contains(names@[m]@) by {
        let i = choose|i: int| 0 <= i < r@.len() && r@[i]@ == names@[m]@;
        assert(enum_texts(r@)[i] == names@[m]@);
    }
    assert forall|i: int, j: int|
        0 <= i < enum_texts(r@).len() && 0 <= j < enum_texts(r@).len() && i != j implies enum_texts(
        r@,
    )[i] != enum_texts(r@)[j] by {
        if i < j {
            assert(r@[i]@ != r@[j]@);
        } else {
            assert(r@[j]@ != r@[i]@);
        }
    }
    r
}

/// Whether `v` holds an enum string with the same text as `e`.
pub fn contains_enum_string(v: &Vec<EnumString>, e: &EnumString) -> (r: bool)
    ensures
        r == exists|i: int| 0 <= i < v@.len() && v@[i]@ == e@,
{
    let mut i: usize = 0;
    while i < v.len()
        invariant
            i <= v@.len(),
            forall|j: int| 0 <= j < i ==> v@[j]@ != e@,
        decreases v@.len() - i,
    {
        if v[i].same(e) {
            return true;
        }
        i = i + 1;
    }
    false
}

} // verus!
