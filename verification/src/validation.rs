//! Validators that values must pass before they are stored.

use vstd::prelude::*;
use vstd::string::{StrSliceExecFns, StringExecFns};
use vstd::utf8::encode_utf8;

use crate::schema::Value;
use crate::transaction::IcDbmsError;

verus! {

/// Validation of column values.
pub trait Validate {
    /// Validates the given value; a value that fails gives an
    /// [`IcDbmsError::Validation`] error.
    fn validate(&self, value: &Value) -> Result<(), IcDbmsError>;
}

/// A validator that accepts every value.
pub struct NoValidation;

impl Validate for NoValidation {
    /// Accepts `value`.
    fn validate(&self, value: &Value) -> (r: Result<(), IcDbmsError>)
        ensures
            r is Ok,
    {
        Ok(())
    }
}

/// Whether `c` is an ASCII hexadecimal digit.
pub open spec fn is_hex_digit(c: char) -> bool {
    ('0' <= c && c <= '9') || ('a' <= c && c <= 'f') || ('A' <= c && c <= 'F')
}

/// Whether `s` is an RGB color: `#RRGGBB`, seven bytes, `#` and then
/// hexadecimal digits.
pub open spec fn is_rgb_color(s: Seq<char>) -> bool {
    &&& encode_utf8(s).len() == 7
    &&& s.len() >= 1
    &&& s[0] == '#'
    &&& forall|i: int| 1 <= i < s.len() ==> is_hex_digit(#[trigger] s[i])
}

/// A validator for RGB color strings of the form `#RRGGBB`, where `RR`, `GG`
/// and `BB` are two-digit hexadecimal numbers.
pub struct RgbColorValidator;

fn hex_digit(c: char) -> (r: bool)
    ensures
        r == is_hex_digit(c),
{
    ('0' <= c && c <= '9') || ('a' <= c && c <= 'f') || ('A' <= c && c <= 'F')
}

impl Validate for RgbColorValidator {
    /// Accepts a text value holding an RGB color; rejects any other value with
    /// a validation error.
    #[verifier::loop_isolation(false)]
    fn validate(&self, value: &Value) -> (r: Result<(), IcDbmsError>)
        ensures
            match value {
                Value::Text(text) => if is_rgb_color(text.0@) {
                    r is Ok
                } else {
                    r matches Err(IcDbmsError::Validation(m)) && m@
                        == "Invalid RGB color format"@
                },
                _ => r matches Err(IcDbmsError::Validation(m)) && m@
                    == "RGB color validation requires a text value"@,
            },
    {
        let text = match value {
            Value::Text(text) => text,
            _ => {
                return Err(
                    IcDbmsError::Validation(
                        String::from_str("RGB color validation requires a text value"),
                    ),
                );
            },
        };
        let s = text.0.as_str();
        if s.as_bytes().len() != 7 || s.unicode_len() == 0 || s.get_char(0) != '#' {
            return Err(IcDbmsError::Validation(String::from_str("Invalid RGB color format")));
        }
        let n = s.unicode_len();
        let mut i: usize = 1;
        while i < n
            invariant
                1 <= i <= n,
                n == s@.len(),
                s@ == text.0@,
                s@[0] == '#',
                encode_utf8(s@).len() == 7,
                forall|j: int| 1 <= j < i ==> is_hex_digit(#[trigger] s@[j]),
            decreases n - i,
        {
            if !hex_digit(s.get_char(i)) {
                assert(!is_hex_digit(text.0@[i as int]));
                return Err(IcDbmsError::Validation(String::from_str("Invalid RGB color format")));
            }
            i = i + 1;
        }
        Ok(())
    }
}

/// Whether `c` is one of the characters `0123456789abcdefABCDEF`.
pub open spec fn is_listed_hex_char(c: char) -> bool {
    c == '0' || c == '1' || c == '2' || c == '3' || c == '4' || c == '5' || c == '6' || c == '7' || c == '8' || c == '9' || c == 'a' || c == 'b' || c == 'c' || c == 'd' || c == 'e' || c == 'f' || c == 'A' || c == 'B' || c == 'C' || c == 'D' || c == 'E' || c == 'F'
}

/// The hexadecimal digits are exactly the ten decimal digits and the letters
/// `a` to `f` and `A` to `F`.
pub proof fn lemma_hex_digits(c: char)
    ensures
        is_hex_digit(c) <==> is_listed_hex_char(c),
{
}

/// A `#` followed by six hexadecimal digits is an RGB color, and a text with
/// any other character after the `#` is not.
pub proof fn lemma_rgb_colors(s: Seq<char>)
    ensures
        s.len() == 7 && s[0] == '#' && (forall|i: int|
            1 <= i < 7 ==> is_listed_hex_char(#[trigger] s[i])) ==> is_rgb_color(s),
        (exists|i: int| 1 <= i < s.len() && !is_listed_hex_char(#[trigger] s[i])) ==> !is_rgb_color(
            s,
        ),
{
    if s.len() == 7 && s[0] == '#' && (forall|i: int|
        1 <= i < 7 ==> is_listed_hex_char(#[trigger] s[i])) {
        assert(vstd::utf8::is_ascii_chars(s)) by {
            assert forall|i: int| 0 <= i < s.len() implies '\0' <= #[trigger] s[i] <= '\u{7f}' by {
                if i > 0 {
                    assert(is_listed_hex_char(s[i]));
                }
            }
        }
        vstd::utf8::is_ascii_chars_encode_utf8(s);
    }
    if exists|i: int| 1 <= i < s.len() && !is_listed_hex_char(#[trigger] s[i]) {
        let i = choose|i: int| 1 <= i < s.len() && !is_listed_hex_char(#[trigger] s[i]);
        assert(!is_hex_digit(s[i]));
    }
}

} // verus!
