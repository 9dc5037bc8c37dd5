//! Classification of strings and byte sequences against the XML 1.0
//! productions for element / attribute names (section 2.3, productions 4 and
//! 4a) and character data (section 2.2).
use vstd::prelude::*;

use crate::strutil;

verus! {

/// Why a string was rejected by one of the classification functions.
#[derive(Debug, Clone, PartialEq, Eq, Structural)]
pub enum TextConstraintError {
    EmptyString,
    InvalidCharacter(usize, char),
    InvalidUtf8,
}

/// An inclusive range of Unicode code points.
pub struct CodepointRange(pub char, pub char);

impl CodepointRange {
    /// True when the code point lies inside the range, both ends included.
    pub fn contains(&self, c: char) -> (r: bool)
        ensures
            r == (self.0 <= c && c <= self.1),
    {
        (self.0 <= c) && (c <= self.1)
    }
}

/// XML 1.0 section 2.2: the Char production.
pub open spec fn valid_cdata_char(c: char) -> bool {
    let v = c as u32;
    (0x9 <= v <= 0xa) || v == 0xd || (0x20 <= v <= 0xd7ff) || (0xe000 <= v <= 0xfffd) || (
    0x10000 <= v <= 0x10ffff)
}

/// XML 1.0 section 2.3, production 4: NameStartChar.
pub open spec fn valid_name_start_char(c: char) -> bool {
    let v = c as u32;
    v == 0x3a || (0x41 <= v <= 0x5a) || v == 0x5f || (0x61 <= v <= 0x7a) || (0xc0 <= v <= 0xd6)
        || (0xd8 <= v <= 0xf6) || (0xf8 <= v <= 0x2ff) || (0x370 <= v <= 0x37d) || (0x37f <= v
        <= 0x1fff) || (0x200c <= v <= 0x200d) || (0x2070 <= v <= 0x218f) || (0x2c00 <= v <= 0x2fef)
        || (0x3001 <= v <= 0xd7ff) || (0xf900 <= v <= 0xfdcf) || (0x10000 <= v <= 0xeffff)
}

/// XML 1.0 section 2.3, production 4a: NameChar.
pub open spec fn valid_name_char(c: char) -> bool {
    let v = c as u32;
    valid_name_start_char(c) || v == 0x2d || v == 0x2e || (0x30 <= v <= 0x39) || v == 0xb7 || (0x300
        <= v <= 0x36f) || (0x203f <= v <= 0x2040)
}

/// A well-formed XML name: non-empty, a NameStartChar followed by NameChars.
pub open spec fn valid_name(s: Seq<char>) -> bool {
    s.len() > 0 && valid_name_start_char(s[0]) && (forall|i: int|
        1 <= i < s.len() ==> valid_name_char(#[trigger] s[i]))
}

/// Character accepted at position `i` of a name; with `attribute_hack`, the
/// byte 0x01 separator is tolerated anywhere after the first position.
pub open spec fn name_char_at(s: Seq<char>, i: int, attribute_hack: bool) -> bool {
    if i == 0 {
        valid_name_start_char(s[0])
    } else {
        valid_name_char(s[i]) || (attribute_hack && s[i] == '\u{1}')
    }
}

/// A well-formed attribute key in storage form: an XML name in which the
/// 0x01 namespace separator may occur after the first character.
pub open spec fn valid_name_hack(s: Seq<char>, attribute_hack: bool) -> bool {
    s.len() > 0 && (forall|i: int| 0 <= i < s.len() ==> #[trigger] name_char_at(s, i, attribute_hack))
}

/// Well-formed character data: every code point in the Char production.
pub open spec fn valid_cdata(s: Seq<char>) -> bool {
    forall|i: int| 0 <= i < s.len() ==> valid_cdata_char(#[trigger] s[i])
}

/// Checks one code point against the Char production.
pub fn check_valid_cdata_char(c: char) -> (r: bool)
    ensures
        r == valid_cdata_char(c),
{
    let v = c as u32;
    (0x9 <= v && v <= 0xa) || v == 0xd || (0x20 <= v && v <= 0xd7ff) || (0xe000 <= v && v <= 0xfffd)
        || (0x10000 <= v && v <= 0x10ffff)
}

/// Checks one code point against the NameStartChar production.
pub fn check_valid_name_start_char(c: char) -> (r: bool)
    ensures
        r == valid_name_start_char(c),
{
    let v = c as u32;
    v == 0x3a || (0x41 <= v && v <= 0x5a) || v == 0x5f || (0x61 <= v && v <= 0x7a) || (0xc0 <= v
        && v <= 0xd6) || (0xd8 <= v && v <= 0xf6) || (0xf8 <= v && v <= 0x2ff) || (0x370 <= v && v
        <= 0x37d) || (0x37f <= v && v <= 0x1fff) || (0x200c <= v && v <= 0x200d) || (0x2070 <= v
        && v <= 0x218f) || (0x2c00 <= v && v <= 0x2fef) || (0x3001 <= v && v <= 0xd7ff) || (0xf900
        <= v && v <= 0xfdcf) || (0x10000 <= v && v <= 0xeffff)
}

/// Checks one code point against the NameChar production.
pub fn check_valid_name_char(c: char) -> (r: bool)
    ensures
        r == valid_name_char(c),
{
    let v = c as u32;
    check_valid_name_start_char(c) || v == 0x2d || v == 0x2e || (0x30 <= v && v <= 0x39) || v
        == 0xb7 || (0x300 <= v && v <= 0x36f) || (0x203f <= v && v <= 0x2040)
}

/// Checks a whole string against the Name production, reporting the first
/// offending position. With `attribute_hack`, 0x01 separators after the
/// first character are accepted (the attribute-key storage encoding).
pub fn check_xml_element_name(s: &str, attribute_hack: bool) -> (r: Option<TextConstraintError>)
    ensures
        r is None <==> valid_name_hack(s@, attribute_hack),
        match r {
            Option::None => true,
            Option::Some(e) => match e {
                TextConstraintError::EmptyString => s@.len() == 0,
                TextConstraintError::InvalidCharacter(i, c) => {
                    &&& 0 <= i < s@.len()
                    &&& c == s@[i as int]
                    &&& !name_char_at(s@, i as int, attribute_hack)
                    &&& forall|j: int| 0 <= j < i ==> #[trigger] name_char_at(s@, j, attribute_hack)
                },
                TextConstraintError::InvalidUtf8 => false,
            },
        },
{
    let chars = strutil::str_chars(s);
    if chars.len() == 0 {
        return Some(TextConstraintError::EmptyString);
    }
    if !check_valid_name_start_char(chars[0]) {
        proof {
            assert(!name_char_at(s@, 0, attribute_hack));
        }
        return Some(TextConstraintError::InvalidCharacter(0, chars[0]));
    }
    proof {
        assert(name_char_at(s@, 0, attribute_hack));
    }
    let mut i: usize = 1;
    while i < chars.len()
        invariant
            1 <= i <= chars@.len(),
            chars@ == s@,
            s@.len() > 0,
            valid_name_start_char(s@[0]),
            forall|j: int| 0 <= j < i ==> #[trigger] name_char_at(s@, j, attribute_hack),
        decreases chars@.len() - i,
    {
        let c = chars[i];
        if attribute_hack && c == '\u{1}' {
            proof {
                assert(name_char_at(s@, i as int, attribute_hack));
            }
            i = i + 1;
            continue ;
        }
        if !check_valid_name_char(c) {
            proof {
                assert(!name_char_at(s@, i as int, attribute_hack));
            }
            return Some(TextConstraintError::InvalidCharacter(i, c));
        }
        proof {
            assert(name_char_at(s@, i as int, attribute_hack));
        }
        i = i + 1;
    }
    None
}

/// Checks a whole string against the Char production, reporting the first
/// offending position.
pub fn check_xml_cdata(s: &str) -> (r: Option<TextConstraintError>)
    ensures
        r is None <==> valid_cdata(s@),
        match r {
            Option::None => true,
            Option::Some(e) => match e {
                TextConstraintError::EmptyString => false,
                TextConstraintError::InvalidCharacter(i, c) => {
                    &&& 0 <= i < s@.len()
                    &&& c == s@[i as int]
                    &&& !valid_cdata_char(c)
                    &&& forall|j: int| 0 <= j < i ==> valid_cdata_char(#[trigger] s@[j])
                },
                TextConstraintError::InvalidUtf8 => false,
            },
        },
{
    let chars = strutil::str_chars(s);
    let mut i: usize = 0;
    while i < chars.len()
        invariant
            i <= chars@.len(),
            chars@ == s@,
            forall|j: int| 0 <= j < i ==> valid_cdata_char(#[trigger] s@[j]),
        decreases chars@.len() - i,
    {
        let c = chars[i];
        if !check_valid_cdata_char(c) {
            return Some(TextConstraintError::InvalidCharacter(i, c));
        }
        i = i + 1;
    }
    None
}

/// Decodes a byte sequence as UTF-8 and validates it as an element name.
pub fn convert_xml_element_name(raw: &[u8]) -> (r: Result<String, TextConstraintError>)
    ensures
        match r {
            Result::Ok(s) => {
                &&& vstd::utf8::valid_utf8(raw@)
                &&& s@ == vstd::utf8::decode_utf8(raw@)
                &&& valid_name(s@)
            },
            Result::Err(e) => match e {
                TextConstraintError::InvalidUtf8 => !vstd::utf8::valid_utf8(raw@),
                _ => vstd::utf8::valid_utf8(raw@) && !valid_name(
                    vstd::utf8::decode_utf8(raw@),
                ),
            },
        },
{
    let s = match strutil::utf8_to_string(raw) {
        Some(s) => s,
        None => {
            return Err(TextConstraintError::InvalidUtf8);
        },
    };
    match check_xml_element_name(s.as_str(), false) {
        Some(err) => {
            proof {
                lemma_valid_name_hack_plain(s@);
            }
            Err(err)
        },
        None => {
            proof {
                lemma_valid_name_hack_plain(s@);
            }
            Ok(s)
        },
    }
}

/// Decodes a byte sequence as UTF-8 and validates it as an attribute key in
/// storage form.
pub fn convert_xml_attribute_name(raw: &[u8]) -> (r: Result<String, TextConstraintError>)
    ensures
        match r {
            Result::Ok(s) => {
                &&& vstd::utf8::valid_utf8(raw@)
                &&& s@ == vstd::utf8::decode_utf8(raw@)
                &&& valid_name_hack(s@, true)
            },
            Result::Err(e) => match e {
                TextConstraintError::InvalidUtf8 => !vstd::utf8::valid_utf8(raw@),
                _ => vstd::utf8::valid_utf8(raw@) && !valid_name_hack(
                    vstd::utf8::decode_utf8(raw@),
                    true,
                ),
            },
        },
{
    let s = match strutil::utf8_to_string(raw) {
        Some(s) => s,
        None => {
            return Err(TextConstraintError::InvalidUtf8);
        },
    };
    match check_xml_element_name(s.as_str(), true) {
        Some(err) => Err(err),
        None => Ok(s),
    }
}

/// Decodes a byte sequence as UTF-8 and validates it as character data.
pub fn convert_xml_cdata(raw: &[u8]) -> (r: Result<String, TextConstraintError>)
    ensures
        match r {
            Result::Ok(s) => {
                &&& vstd::utf8::valid_utf8(raw@)
                &&& s@ == vstd::utf8::decode_utf8(raw@)
                &&& valid_cdata(s@)
            },
            Result::Err(e) => match e {
                TextConstraintError::InvalidUtf8 => !vstd::utf8::valid_utf8(raw@),
                _ => vstd::utf8::valid_utf8(raw@) && !valid_cdata(vstd::utf8::decode_utf8(raw@)),
            },
        },
{
    let s = match strutil::utf8_to_string(raw) {
        Some(s) => s,
        None => {
            return Err(TextConstraintError::InvalidUtf8);
        },
    };
    match check_xml_cdata(s.as_str()) {
        Some(err) => Err(err),
        None => Ok(s),
    }
}

/// Without the attribute hack, the storage-form check coincides with the
/// plain Name production.
pub proof fn lemma_valid_name_hack_plain(s: Seq<char>)
    ensures
        valid_name_hack(s, false) == valid_name(s),
{
    if valid_name_hack(s, false) {
        assert(name_char_at(s, 0, false));
        assert forall|i: int| 1 <= i < s.len() implies valid_name_char(#[trigger] s[i]) by {
            assert(name_char_at(s, i, false));
        }
        assert(valid_name(s));
    }
    if valid_name(s) {
        assert forall|i: int| 0 <= i < s.len() implies #[trigger] name_char_at(s, i, false) by {
            if i > 0 {
                assert(valid_name_char(s[i]));
            }
        }
        assert(valid_name_hack(s, false));
    }
}

} // verus!

verus! {

/// Every NameStartChar is a NameChar.
pub proof fn lemma_start_is_name_char(c: char)
    requires
        valid_name_start_char(c),
    ensures
        valid_name_char(c),
{
}

} // verus!
