//! Character classes that delimit email and phone candidates.
//!
//! Every structural class is a set of ASCII characters; any non-ASCII
//! character falls outside all of them and is never treated as structure.

use vstd::prelude::*;

verus! {

/// An ASCII decimal digit.
pub open spec fn is_digit_char(c: char) -> bool {
    48 <= c as u32 && c as u32 <= 57
}

/// An ASCII letter.
pub open spec fn is_alpha_char(c: char) -> bool {
    (65 <= c as u32 && c as u32 <= 90) || (97 <= c as u32 && c as u32 <= 122)
}

/// An ASCII letter or digit.
pub open spec fn is_alnum_char(c: char) -> bool {
    is_alpha_char(c) || is_digit_char(c)
}

/// A character allowed in the local part of an email address.
pub open spec fn is_local_char(c: char) -> bool {
    is_alnum_char(c) || c == '.' || c == '_' || c == '%' || c == '+' || c == '-'
}

/// A character allowed in the domain of an email address.
pub open spec fn is_domain_char(c: char) -> bool {
    is_alnum_char(c) || c == '-' || c == '.'
}

/// A character that may open a phone-like run.
pub open spec fn is_phone_start_char(c: char) -> bool {
    is_digit_char(c) || c == '+' || c == '('
}

/// A character that may continue a phone-like run.
pub open spec fn is_phone_run_char(c: char) -> bool {
    is_digit_char(c) || c == ' ' || c == '-' || c == '(' || c == ')' || c == '+'
}

pub fn digit_char(c: char) -> (r: bool)
    ensures
        r == is_digit_char(c),
{
    let u = c as u32;
    48 <= u && u <= 57
}

pub fn alpha_char(c: char) -> (r: bool)
    ensures
        r == is_alpha_char(c),
{
    let u = c as u32;
    (65 <= u && u <= 90) || (97 <= u && u <= 122)
}

pub fn alnum_char(c: char) -> (r: bool)
    ensures
        r == is_alnum_char(c),
{
    alpha_char(c) || digit_char(c)
}

pub fn local_char(c: char) -> (r: bool)
    ensures
        r == is_local_char(c),
{
    alnum_char(c) || c == '.' || c == '_' || c == '%' || c == '+' || c == '-'
}

pub fn domain_char(c: char) -> (r: bool)
    ensures
        r == is_domain_char(c),
{
    alnum_char(c) || c == '-' || c == '.'
}

pub fn phone_start_char(c: char) -> (r: bool)
    ensures
        r == is_phone_start_char(c),
{
    digit_char(c) || c == '+' || c == '('
}

pub fn phone_run_char(c: char) -> (r: bool)
    ensures
        r == is_phone_run_char(c),
{
    digit_char(c) || c == ' ' || c == '-' || c == '(' || c == ')' || c == '+'
}

/// A byte allowed in the local part of an email address.
pub fn is_local_byte(byte: u8) -> (r: bool)
    ensures
        r == is_local_char(byte as char),
{
    local_char(byte as char)
}

/// A byte allowed in the domain of an email address.
pub fn is_domain_byte(byte: u8) -> (r: bool)
    ensures
        r == is_domain_char(byte as char),
{
    domain_char(byte as char)
}

/// A byte that may open a phone-like run.
pub fn is_phone_start(byte: u8) -> (r: bool)
    ensures
        r == is_phone_start_char(byte as char),
{
    phone_start_char(byte as char)
}

/// A byte that may continue a phone-like run.
pub fn is_phone_char(byte: u8) -> (r: bool)
    ensures
        r == is_phone_run_char(byte as char),
{
    phone_run_char(byte as char)
}

} // verus!
