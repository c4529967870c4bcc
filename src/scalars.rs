//! Reading a scalar's text as an integer, a boolean or a character.
//!
//! Each reading tells a value that is not a text (`Err(None)`) from a text
//! that does not read as the type (`Err(Some(..))`).
use vstd::prelude::*;
use core::char::ParseCharError;
use core::num::ParseIntError;
use core::str::ParseBoolError;
use crate::cli::{true_word, false_word};
use crate::value::Value;

verus! {

#[verifier::external_type_specification]
#[verifier::external_body]
pub struct ExParseIntError(ParseIntError);

#[verifier::external_type_specification]
#[verifier::external_body]
pub struct ExParseBoolError(ParseBoolError);

#[verifier::external_type_specification]
#[verifier::external_body]
pub struct ExParseCharError(ParseCharError);

pub open spec fn is_decimal_digit(c: char) -> bool {
    '0' <= c && c <= '9'
}

/// The number that a run of decimal digits spells.
pub open spec fn digits_value(t: Seq<char>) -> int
    decreases t.len(),
{
    if t.len() == 0 {
        0
    } else {
        digits_value(t.drop_last()) * 10 + (t.last() as u32 - '0' as u32)
    }
}

pub open spec fn all_digits(t: Seq<char>) -> bool {
    t.len() > 0 && forall|i: int| 0 <= i < t.len() ==> is_decimal_digit(#[trigger] t[i])
}

/// The integer a text spells in decimal: an optional `+` (or, where
/// `signed`, `-`) and one or more digits.
pub open spec fn decimal(t: Seq<char>, signed: bool) -> Option<int> {
    if t.len() > 0 && (t[0] == '+' || (signed && t[0] == '-')) {
        let d = t.drop_first();
        if all_digits(d) {
            Some(
                if t[0] == '-' {
                    -digits_value(d)
                } else {
                    digits_value(d)
                },
            )
        } else {
            None
        }
    } else if all_digits(t) {
        Some(digits_value(t))
    } else {
        None
    }
}

/// Relies on `<i64 as FromStr>::from_str`: an optional sign and decimal
/// digits, within the range of `i64`.
#[verifier::external_body]
fn parse_i64_text(s: &str) -> (r: Result<i64, ParseIntError>)
    ensures
        r is Ok <==> (decimal(s@, true) matches Some(n) && i64::MIN <= n <= i64::MAX),
        r matches Ok(n) ==> decimal(s@, true) == Some(n as int),
{
    s.parse::<i64>()
}

/// Relies on `<u64 as FromStr>::from_str`: an optional `+` and decimal
/// digits, within the range of `u64`.
#[verifier::external_body]
fn parse_u64_text(s: &str) -> (r: Result<u64, ParseIntError>)
    ensures
        r is Ok <==> (decimal(s@, false) matches Some(n) && n <= u64::MAX),
        r matches Ok(n) ==> decimal(s@, false) == Some(n as int),
{
    s.parse::<u64>()
}

/// Relies on `<bool as FromStr>::from_str`: exactly `true` or `false`.
#[verifier::external_body]
fn parse_bool_text(s: &str) -> (r: Result<bool, ParseBoolError>)
    ensures
        r is Ok <==> (s@ == true_word() || s@ == false_word()),
        r matches Ok(b) ==> b == (s@ == true_word()),
{
    s.parse::<bool>()
}

/// Relies on `<char as FromStr>::from_str`: exactly one character.
#[verifier::external_body]
fn parse_char_text(s: &str) -> (r: Result<char, ParseCharError>)
    ensures
        r is Ok <==> s@.len() == 1,
        r matches Ok(c) ==> c == s@[0],
{
    s.parse::<char>()
}

impl Value {
    /// The text read as an `i64`.
    pub fn parse_i64(&self) -> (r: Result<i64, Option<ParseIntError>>)
        ensures
            match self {
                Value::String(s) => match r {
                    Ok(n) => decimal(s@, true) == Some(n as int),
                    Err(e) => e is Some && !(decimal(s@, true) matches Some(n) && i64::MIN <= n
                        <= i64::MAX),
                },
                _ => r == Err::<i64, Option<ParseIntError>>(None),
            },
    {
        match self {
            Value::String(s) => match parse_i64_text(s.as_str()) {
                Ok(n) => Ok(n),
                Err(e) => Err(Some(e)),
            },
            _ => Err(None),
        }
    }

    /// The text read as a `u64`.
    pub fn parse_u64(&self) -> (r: Result<u64, Option<ParseIntError>>)
        ensures
            match self {
                Value::String(s) => match r {
                    Ok(n) => decimal(s@, false) == Some(n as int),
                    Err(e) => e is Some && !(decimal(s@, false) matches Some(n) && n <= u64::MAX),
                },
                _ => r == Err::<u64, Option<ParseIntError>>(None),
            },
    {
        match self {
            Value::String(s) => match parse_u64_text(s.as_str()) {
                Ok(n) => Ok(n),
                Err(e) => Err(Some(e)),
            },
            _ => Err(None),
        }
    }

    /// The text read as a `bool`: `true` or `false`.
    pub fn parse_bool(&self) -> (r: Result<bool, Option<ParseBoolError>>)
        ensures
            match self {
                Value::String(s) => match r {
                    Ok(b) => (s@ == true_word() && b) || (s@ == false_word() && !b),
                    Err(e) => e is Some && s@ != true_word() && s@ != false_word(),
                },
                _ => r == Err::<bool, Option<ParseBoolError>>(None),
            },
    {
        match self {
            Value::String(s) => match parse_bool_text(s.as_str()) {
                Ok(b) => Ok(b),
                Err(e) => Err(Some(e)),
            },
            _ => Err(None),
        }
    }

    /// The text read as a `char`: a text of exactly one character.
    pub fn parse_char(&self) -> (r: Result<char, Option<ParseCharError>>)
        ensures
            match self {
                Value::String(s) => match r {
                    Ok(c) => s@.len() == 1 && c == s@[0],
                    Err(e) => e is Some && s@.len() != 1,
                },
                _ => r == Err::<char, Option<ParseCharError>>(None),
            },
    {
        match self {
            Value::String(s) => match parse_char_text(s.as_str()) {
                Ok(c) => Ok(c),
                Err(e) => Err(Some(e)),
            },
            _ => Err(None),
        }
    }
}

} // verus!
