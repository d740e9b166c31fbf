//! Typed conversion of captured regions: every built-in scalar type parses
//! from a trimmed slice against an exact description of the accepted
//! strings, and user types can join in through the [`Parse`] trait.

use vstd::prelude::*;

use crate::parse_error::ParseError;
use crate::parse_error::ParseErrorModel;
use crate::text::is_digit_char;
use crate::text::spec_trim;
use crate::text::str_eq;
use crate::text::str_to_chars;
use crate::text::trim_bounds_range;
use crate::var::digits_val;
use crate::var::lemma_digits_val_prefix;
use crate::var::spec_is_digits;

verus! {

/// An unsigned decimal number: an optional `+` sign, then digits.
pub open spec fn spec_is_uint(s: Seq<char>) -> bool {
    spec_is_digits(spec_uint_digits(s))
}

/// The digits of an unsigned decimal number, the sign stripped.
pub open spec fn spec_uint_digits(s: Seq<char>) -> Seq<char> {
    if s.len() > 0 && s[0] == '+' {
        s.skip(1)
    } else {
        s
    }
}

/// The value of an unsigned decimal number.
pub open spec fn spec_uint_val(s: Seq<char>) -> nat {
    digits_val(spec_uint_digits(s))
}

/// A signed decimal number: an optional `+` or `-` sign, then digits.
pub open spec fn spec_is_sint(s: Seq<char>) -> bool {
    spec_is_digits(spec_sint_digits(s))
}

/// The digits of a signed decimal number, the sign stripped.
pub open spec fn spec_sint_digits(s: Seq<char>) -> Seq<char> {
    if s.len() > 0 && (s[0] == '+' || s[0] == '-') {
        s.skip(1)
    } else {
        s
    }
}

/// The value of a signed decimal number.
pub open spec fn spec_sint_val(s: Seq<char>) -> int {
    if s.len() > 0 && s[0] == '-' {
        -(digits_val(spec_sint_digits(s)) as int)
    } else {
        digits_val(spec_sint_digits(s)) as int
    }
}

/// Reads the digits in `chars@.subrange(a, b)` as a number that fits the
/// widest unsigned machine word.
fn parse_u64_digits(chars: &Vec<char>, a: usize, b: usize) -> (r: Option<u64>)
    requires
        a <= b <= chars@.len(),
    ensures
        ({
            let d = chars@.subrange(a as int, b as int);
            match r {
                Some(v) => spec_is_digits(d) && digits_val(d) == v,
                None => !(spec_is_digits(d) && digits_val(d) <= u64::MAX),
            }
        }),
{
    let ghost d = chars@.subrange(a as int, b as int);
    if a == b {
        return None;
    }
    let mut i: usize = a;
    let mut val: u64 = 0;
    while i < b
        invariant
            a <= i <= b,
            forall|j: int| a <= j < i ==> is_digit_char(chars@[j]),
            val == digits_val(d.take(i - a)),
        decreases b - i,
    {
        let c = chars[i];
        if !crate::text::is_digit(c) {
            proof {
                assert(d[i - a] == chars@[i as int]);
            }
            return None;
        }
        let dv: u64 = ((c as u32) - 48) as u64;
        proof {
            assert(d.take(i - a + 1).drop_last() =~= d.take(i - a));
            assert(d.take(i - a + 1).last() == chars@[i as int]);
        }
        // u64::MAX is 18_446_744_073_709_551_615
        if val > u64::MAX / 10 || (val == u64::MAX / 10 && dv > u64::MAX % 10) {
            proof {
                assert(digits_val(d.take(i - a + 1)) > u64::MAX);
                lemma_digits_val_prefix(d, i - a + 1);
            }
            return None;
        }
        val = val * 10 + dv;
        i = i + 1;
    }
    proof {
        assert(d.take(b - a) =~= d);
        assert forall|j: int| 0 <= j < d.len() implies is_digit_char(d[j]) by {
            assert(d[j] == chars@[j + a]);
        }
    }
    Some(val)
}

/// Reads the digits in `chars@.subrange(a, b)` as a number that fits the
/// widest unsigned integer type.
fn parse_u128_digits(chars: &Vec<char>, a: usize, b: usize) -> (r: Option<u128>)
    requires
        a <= b <= chars@.len(),
    ensures
        ({
            let d = chars@.subrange(a as int, b as int);
            match r {
                Some(v) => spec_is_digits(d) && digits_val(d) == v,
                None => !(spec_is_digits(d) && digits_val(d) <= u128::MAX),
            }
        }),
{
    let ghost d = chars@.subrange(a as int, b as int);
    if a == b {
        return None;
    }
    let mut i: usize = a;
    let mut val: u128 = 0;
    while i < b
        invariant
            a <= i <= b,
            forall|j: int| a <= j < i ==> is_digit_char(chars@[j]),
            val == digits_val(d.take(i - a)),
        decreases b - i,
    {
        let c = chars[i];
        if !crate::text::is_digit(c) {
            proof {
                assert(d[i - a] == chars@[i as int]);
            }
            return None;
        }
        let dv: u128 = ((c as u32) - 48) as u128;
        proof {
            assert(d.take(i - a + 1).drop_last() =~= d.take(i - a));
            assert(d.take(i - a + 1).last() == chars@[i as int]);
        }
        if val > u128::MAX / 10 || (val == u128::MAX / 10 && dv > u128::MAX % 10) {
            proof {
                assert(digits_val(d.take(i - a + 1)) > u128::MAX);
                lemma_digits_val_prefix(d, i - a + 1);
            }
            return None;
        }
        val = val * 10 + dv;
        i = i + 1;
    }
    proof {
        assert(d.take(b - a) =~= d);
        assert forall|j: int| 0 <= j < d.len() implies is_digit_char(d[j]) by {
            assert(d[j] == chars@[j + a]);
        }
    }
    Some(val)
}

/// Parses the trimmed slice as an unsigned decimal number fitting `u128`.
pub fn parse_u128(s: &str) -> (r: Result<u128, ParseError>)
    ensures
        match r {
            Ok(v) => spec_is_uint(spec_trim(s@)) && spec_uint_val(spec_trim(s@)) == v,
            Err(e) => e@ == ParseErrorModel::Int && !(spec_is_uint(spec_trim(s@))
                && spec_uint_val(spec_trim(s@)) <= u128::MAX),
        },
{
    let chars = str_to_chars(s);
    let len = chars.len();
    proof {
        assert(chars@.subrange(0, len as int) =~= s@);
    }
    let (a, b) = trim_bounds_range(&chars, 0, len);
    let ghost t = spec_trim(s@);
    let start = if a < b && chars[a] == '+' {
        a + 1
    } else {
        a
    };
    proof {
        if t.len() > 0 {
            assert(t[0] == chars@[a as int]);
        }
        assert(chars@.subrange(start as int, b as int) =~= spec_uint_digits(t));
    }
    match parse_u128_digits(&chars, start, b) {
        Some(v) => Ok(v),
        None => Err(ParseError::Int),
    }
}

/// Parses the trimmed slice as a signed decimal number fitting `i128`.
pub fn parse_i128(s: &str) -> (r: Result<i128, ParseError>)
    ensures
        match r {
            Ok(v) => spec_is_sint(spec_trim(s@)) && spec_sint_val(spec_trim(s@)) == v,
            Err(e) => e@ == ParseErrorModel::Int && !(spec_is_sint(spec_trim(s@)) && i128::MIN
                <= spec_sint_val(spec_trim(s@)) <= i128::MAX),
        },
{
    let chars = str_to_chars(s);
    let len = chars.len();
    proof {
        assert(chars@.subrange(0, len as int) =~= s@);
    }
    let (a, b) = trim_bounds_range(&chars, 0, len);
    let ghost t = spec_trim(s@);
    let mut neg = false;
    let mut start = a;
    if a < b {
        let c0 = chars[a];
        if c0 == '-' {
            neg = true;
            start = a + 1;
        } else if c0 == '+' {
            start = a + 1;
        }
    }
    proof {
        if t.len() > 0 {
            assert(t[0] == chars@[a as int]);
        }
        assert(chars@.subrange(start as int, b as int) =~= spec_sint_digits(t));
    }
    match parse_u128_digits(&chars, start, b) {
        Some(mag) => {
            if neg {
                if mag <= i128::MAX as u128 {
                    Ok(-(mag as i128))
                } else if mag == i128::MAX as u128 + 1 {
                    Ok(i128::MIN)
                } else {
                    Err(ParseError::Int)
                }
            } else {
                if mag <= i128::MAX as u128 {
                    Ok(mag as i128)
                } else {
                    Err(ParseError::Int)
                }
            }
        },
        None => Err(ParseError::Int),
    }
}

/// Parses the trimmed slice as an unsigned decimal number: an optional `+`
/// sign, then digits whose value fits the widest unsigned machine word.
pub fn parse_u64(s: &str) -> (r: Result<u64, ParseError>)
    ensures
        match r {
            Ok(v) => spec_is_uint(spec_trim(s@)) && spec_uint_val(spec_trim(s@)) == v,
            Err(e) => e@ == ParseErrorModel::Int && !(spec_is_uint(spec_trim(s@))
                && spec_uint_val(spec_trim(s@)) <= u64::MAX),
        },
{
    let chars = str_to_chars(s);
    let len = chars.len();
    proof {
        assert(chars@.subrange(0, len as int) =~= s@);
    }
    let (a, b) = trim_bounds_range(&chars, 0, len);
    let ghost t = spec_trim(s@);
    let start = if a < b && chars[a] == '+' {
        a + 1
    } else {
        a
    };
    proof {
        if t.len() > 0 {
            assert(t[0] == chars@[a as int]);
        }
        assert(chars@.subrange(start as int, b as int) =~= spec_uint_digits(t));
    }
    match parse_u64_digits(&chars, start, b) {
        Some(v) => Ok(v),
        None => Err(ParseError::Int),
    }
}

/// Parses the trimmed slice as an unsigned decimal number fitting `u32`.
pub fn parse_u32(s: &str) -> (r: Result<u32, ParseError>)
    ensures
        match r {
            Ok(v) => spec_is_uint(spec_trim(s@)) && spec_uint_val(spec_trim(s@)) == v,
            Err(e) => e@ == ParseErrorModel::Int && !(spec_is_uint(spec_trim(s@))
                && spec_uint_val(spec_trim(s@)) <= u32::MAX),
        },
{
    match parse_u64(s) {
        Ok(v) => if v <= u32::MAX as u64 {
            Ok(v as u32)
        } else {
            Err(ParseError::Int)
        },
        Err(e) => Err(e),
    }
}

/// Parses the trimmed slice as an unsigned decimal number fitting `u16`.
pub fn parse_u16(s: &str) -> (r: Result<u16, ParseError>)
    ensures
        match r {
            Ok(v) => spec_is_uint(spec_trim(s@)) && spec_uint_val(spec_trim(s@)) == v,
            Err(e) => e@ == ParseErrorModel::Int && !(spec_is_uint(spec_trim(s@))
                && spec_uint_val(spec_trim(s@)) <= u16::MAX),
        },
{
    match parse_u64(s) {
        Ok(v) => if v <= u16::MAX as u64 {
            Ok(v as u16)
        } else {
            Err(ParseError::Int)
        },
        Err(e) => Err(e),
    }
}

/// Parses the trimmed slice as an unsigned decimal number fitting `u8`.
pub fn parse_u8(s: &str) -> (r: Result<u8, ParseError>)
    ensures
        match r {
            Ok(v) => spec_is_uint(spec_trim(s@)) && spec_uint_val(spec_trim(s@)) == v,
            Err(e) => e@ == ParseErrorModel::Int && !(spec_is_uint(spec_trim(s@))
                && spec_uint_val(spec_trim(s@)) <= u8::MAX),
        },
{
    match parse_u64(s) {
        Ok(v) => if v <= u8::MAX as u64 {
            Ok(v as u8)
        } else {
            Err(ParseError::Int)
        },
        Err(e) => Err(e),
    }
}

/// Parses the trimmed slice as an unsigned decimal number fitting `usize`.
pub fn parse_usize(s: &str) -> (r: Result<usize, ParseError>)
    ensures
        match r {
            Ok(v) => spec_is_uint(spec_trim(s@)) && spec_uint_val(spec_trim(s@)) == v,
            Err(e) => e@ == ParseErrorModel::Int && !(spec_is_uint(spec_trim(s@))
                && spec_uint_val(spec_trim(s@)) <= usize::MAX),
        },
{
    match parse_u64(s) {
        Ok(v) => if v <= usize::MAX as u64 {
            Ok(v as usize)
        } else {
            Err(ParseError::Int)
        },
        Err(e) => Err(e),
    }
}

/// Parses the trimmed slice as a signed decimal number fitting `i64`.
pub fn parse_i64(s: &str) -> (r: Result<i64, ParseError>)
    ensures
        match r {
            Ok(v) => spec_is_sint(spec_trim(s@)) && spec_sint_val(spec_trim(s@)) == v,
            Err(e) => e@ == ParseErrorModel::Int && !(spec_is_sint(spec_trim(s@)) && i64::MIN
                <= spec_sint_val(spec_trim(s@)) <= i64::MAX),
        },
{
    let chars = str_to_chars(s);
    let len = chars.len();
    proof {
        assert(chars@.subrange(0, len as int) =~= s@);
    }
    let (a, b) = trim_bounds_range(&chars, 0, len);
    let ghost t = spec_trim(s@);
    let mut neg = false;
    let mut start = a;
    if a < b {
        let c0 = chars[a];
        if c0 == '-' {
            neg = true;
            start = a + 1;
        } else if c0 == '+' {
            start = a + 1;
        }
    }
    proof {
        if t.len() > 0 {
            assert(t[0] == chars@[a as int]);
        }
        assert(chars@.subrange(start as int, b as int) =~= spec_sint_digits(t));
    }
    match parse_u64_digits(&chars, start, b) {
        Some(mag) => {
            if neg {
                if mag <= i64::MAX as u64 {
                    Ok(-(mag as i64))
                } else if mag == i64::MAX as u64 + 1 {
                    Ok(i64::MIN)
                } else {
                    Err(ParseError::Int)
                }
            } else {
                if mag <= i64::MAX as u64 {
                    Ok(mag as i64)
                } else {
                    Err(ParseError::Int)
                }
            }
        },
        None => Err(ParseError::Int),
    }
}

/// Parses the trimmed slice as a signed decimal number fitting `i32`.
pub fn parse_i32(s: &str) -> (r: Result<i32, ParseError>)
    ensures
        match r {
            Ok(v) => spec_is_sint(spec_trim(s@)) && spec_sint_val(spec_trim(s@)) == v,
            Err(e) => e@ == ParseErrorModel::Int && !(spec_is_sint(spec_trim(s@)) && i32::MIN
                <= spec_sint_val(spec_trim(s@)) <= i32::MAX),
        },
{
    match parse_i64(s) {
        Ok(v) => if i32::MIN as i64 <= v && v <= i32::MAX as i64 {
            Ok(v as i32)
        } else {
            Err(ParseError::Int)
        },
        Err(e) => Err(e),
    }
}

/// Parses the trimmed slice as a signed decimal number fitting `i16`.
pub fn parse_i16(s: &str) -> (r: Result<i16, ParseError>)
    ensures
        match r {
            Ok(v) => spec_is_sint(spec_trim(s@)) && spec_sint_val(spec_trim(s@)) == v,
            Err(e) => e@ == ParseErrorModel::Int && !(spec_is_sint(spec_trim(s@)) && i16::MIN
                <= spec_sint_val(spec_trim(s@)) <= i16::MAX),
        },
{
    match parse_i64(s) {
        Ok(v) => if i16::MIN as i64 <= v && v <= i16::MAX as i64 {
            Ok(v as i16)
        } else {
            Err(ParseError::Int)
        },
        Err(e) => Err(e),
    }
}

/// Parses the trimmed slice as a signed decimal number fitting `i8`.
pub fn parse_i8(s: &str) -> (r: Result<i8, ParseError>)
    ensures
        match r {
            Ok(v) => spec_is_sint(spec_trim(s@)) && spec_sint_val(spec_trim(s@)) == v,
            Err(e) => e@ == ParseErrorModel::Int && !(spec_is_sint(spec_trim(s@)) && i8::MIN
                <= spec_sint_val(spec_trim(s@)) <= i8::MAX),
        },
{
    match parse_i64(s) {
        Ok(v) => if i8::MIN as i64 <= v && v <= i8::MAX as i64 {
            Ok(v as i8)
        } else {
            Err(ParseError::Int)
        },
        Err(e) => Err(e),
    }
}

/// Parses the trimmed slice as a signed decimal number fitting `isize`.
pub fn parse_isize(s: &str) -> (r: Result<isize, ParseError>)
    ensures
        match r {
            Ok(v) => spec_is_sint(spec_trim(s@)) && spec_sint_val(spec_trim(s@)) == v,
            Err(e) => e@ == ParseErrorModel::Int && !(spec_is_sint(spec_trim(s@)) && isize::MIN
                <= spec_sint_val(spec_trim(s@)) <= isize::MAX),
        },
{
    match parse_i64(s) {
        Ok(v) => if isize::MIN as i64 <= v && v <= isize::MAX as i64 {
            Ok(v as isize)
        } else {
            Err(ParseError::Int)
        },
        Err(e) => Err(e),
    }
}

/// Parses the trimmed slice as a boolean: exactly `true` or `false`.
pub fn parse_bool(s: &str) -> (r: Result<bool, ParseError>)
    ensures
        match r {
            Ok(v) => spec_trim(s@) == (if v {
                "true"@
            } else {
                "false"@
            }),
            Err(e) => e@ == ParseErrorModel::Bool && spec_trim(s@) != "true"@ && spec_trim(s@)
                != "false"@,
        },
{
    let chars = str_to_chars(s);
    let len = chars.len();
    proof {
        assert(chars@.subrange(0, len as int) =~= s@);
    }
    let (a, b) = trim_bounds_range(&chars, 0, len);
    let sub = s.substring_char(a, b);
    if str_eq(sub, "true") {
        Ok(true)
    } else if str_eq(sub, "false") {
        Ok(false)
    } else {
        Err(ParseError::Bool)
    }
}

/// Parses the trimmed slice as a character: exactly one remains.
pub fn parse_char(s: &str) -> (r: Result<char, ParseError>)
    ensures
        match r {
            Ok(v) => spec_trim(s@) == seq![v],
            Err(e) => e@ == ParseErrorModel::Char && spec_trim(s@).len() != 1,
        },
{
    let chars = str_to_chars(s);
    let len = chars.len();
    proof {
        assert(chars@.subrange(0, len as int) =~= s@);
    }
    let (a, b) = trim_bounds_range(&chars, 0, len);
    if b - a == 1 {
        let c = chars[a];
        proof {
            assert(spec_trim(s@) =~= seq![c]);
        }
        Ok(c)
    } else {
        Err(ParseError::Char)
    }
}

/// Returns the slice itself: the borrowed, zero-copy string conversion,
/// which never fails, never allocates and never trims.
pub fn parse_str<'a>(s: &'a str) -> (r: Result<&'a str, ParseError>)
    ensures
        r == Ok::<&'a str, ParseError>(s),
{
    Ok(s)
}

/// Copies the slice into an owned string, character for character: the
/// conversion never fails and never trims.
pub fn parse_string(s: &str) -> (r: Result<String, ParseError>)
    ensures
        r matches Ok(v) && v@ == s@,
{
    Ok(<String as vstd::string::StringExecFns>::from_str(s))
}

/// This trait is sealed: only the string slice type carries the extension
/// methods below.
pub trait Sealed {

}

impl Sealed for str {

}

/// Parse a string into the implementing type, borrowing from it where the
/// type allows; the conversion capability every capturable type supplies.
pub trait Parse<'a>: Sized {
    /// Parses a captured slice into this type, or reports why it does not
    /// conform.
    fn from_str(s: &'a str) -> Result<Self, ParseError>;
}

impl<'a> Parse<'a> for &'a str {
    fn from_str(s: &'a str) -> Result<Self, ParseError> {
        parse_str(s)
    }
}

impl<'a> Parse<'a> for String {
    fn from_str(s: &'a str) -> Result<Self, ParseError> {
        parse_string(s)
    }
}

impl<'a> Parse<'a> for u8 {
    fn from_str(s: &'a str) -> Result<Self, ParseError> {
        parse_u8(s)
    }
}

impl<'a> Parse<'a> for u16 {
    fn from_str(s: &'a str) -> Result<Self, ParseError> {
        parse_u16(s)
    }
}

impl<'a> Parse<'a> for u32 {
    fn from_str(s: &'a str) -> Result<Self, ParseError> {
        parse_u32(s)
    }
}

impl<'a> Parse<'a> for u64 {
    fn from_str(s: &'a str) -> Result<Self, ParseError> {
        parse_u64(s)
    }
}

impl<'a> Parse<'a> for u128 {
    fn from_str(s: &'a str) -> Result<Self, ParseError> {
        parse_u128(s)
    }
}

impl<'a> Parse<'a> for usize {
    fn from_str(s: &'a str) -> Result<Self, ParseError> {
        parse_usize(s)
    }
}

impl<'a> Parse<'a> for i8 {
    fn from_str(s: &'a str) -> Result<Self, ParseError> {
        parse_i8(s)
    }
}

impl<'a> Parse<'a> for i16 {
    fn from_str(s: &'a str) -> Result<Self, ParseError> {
        parse_i16(s)
    }
}

impl<'a> Parse<'a> for i32 {
    fn from_str(s: &'a str) -> Result<Self, ParseError> {
        parse_i32(s)
    }
}

impl<'a> Parse<'a> for i64 {
    fn from_str(s: &'a str) -> Result<Self, ParseError> {
        parse_i64(s)
    }
}

impl<'a> Parse<'a> for i128 {
    fn from_str(s: &'a str) -> Result<Self, ParseError> {
        parse_i128(s)
    }
}

impl<'a> Parse<'a> for isize {
    fn from_str(s: &'a str) -> Result<Self, ParseError> {
        parse_isize(s)
    }
}

impl<'a> Parse<'a> for bool {
    fn from_str(s: &'a str) -> Result<Self, ParseError> {
        parse_bool(s)
    }
}

impl<'a> Parse<'a> for char {
    fn from_str(s: &'a str) -> Result<Self, ParseError> {
        parse_char(s)
    }
}

/// A string-slice extension to call [`Parse::from_str`] without naming the
/// type; sealed, so no other type carries it.
pub trait ExtParseStr: Sealed {
    /// Parses the string slice into any type that implements [`Parse`].
    fn lending_parse<'a, F: Parse<'a>>(&'a self) -> Result<F, ParseError>;
}

impl ExtParseStr for str {
    fn lending_parse<'a, F: Parse<'a>>(&'a self) -> Result<F, ParseError> {
        Parse::from_str(self)
    }
}

} // verus!
