//! Character classes used by the text normalizer and the structural filter.
//!
//! Whitespace, control, digit and punctuation classes are small, documented
//! code-point sets and are defined here directly. The Unicode `Alphabetic`
//! and `Uppercase` properties are large tables; they enter through trusted
//! declarations of the standard library's classifiers.

use vstd::prelude::*;

verus! {

/// The Unicode `White_Space` code points: exactly the set that `str::trim`
/// strips and that whitespace normalization collapses.
pub open spec fn is_ws_char(c: char) -> bool {
    let u = c as u32;
    u == 0x09 || u == 0x0A || u == 0x0B || u == 0x0C || u == 0x0D || u == 0x20 || u == 0x85
        || u == 0xA0 || u == 0x1680 || (0x2000 <= u && u <= 0x200A) || u == 0x2028 || u == 0x2029
        || u == 0x202F || u == 0x205F || u == 0x3000
}

pub fn ws_char(c: char) -> (r: bool)
    ensures
        r == is_ws_char(c),
{
    let u = c as u32;
    u == 0x09 || u == 0x0A || u == 0x0B || u == 0x0C || u == 0x0D || u == 0x20 || u == 0x85
        || u == 0xA0 || u == 0x1680 || (0x2000 <= u && u <= 0x200A) || u == 0x2028 || u == 0x2029
        || u == 0x202F || u == 0x205F || u == 0x3000
}

/// The Unicode `Cc` (control) code points.
pub open spec fn is_control_char(c: char) -> bool {
    let u = c as u32;
    u <= 0x1F || (0x7F <= u && u <= 0x9F)
}

pub fn control_char(c: char) -> (r: bool)
    ensures
        r == is_control_char(c),
{
    let u = c as u32;
    u <= 0x1F || (0x7F <= u && u <= 0x9F)
}

/// ASCII decimal digits.
pub open spec fn is_digit_char(c: char) -> bool {
    let u = c as u32;
    0x30 <= u && u <= 0x39
}

pub fn digit_char(c: char) -> (r: bool)
    ensures
        r == is_digit_char(c),
{
    let u = c as u32;
    0x30 <= u && u <= 0x39
}

/// The punctuation marks whose runs the normalizer collapses.
pub open spec fn is_punct_char(c: char) -> bool {
    c == '.' || c == ',' || c == '!' || c == '?' || c == ';' || c == ':'
}

pub fn punct_char(c: char) -> (r: bool)
    ensures
        r == is_punct_char(c),
{
    c == '.' || c == ',' || c == '!' || c == '?' || c == ';' || c == ':'
}

/// Sentence-terminal punctuation: a line ending in one of these is not glued
/// to the following line with a space during line merging.
pub open spec fn is_terminal_punct(c: char) -> bool {
    c == '.' || c == '!' || c == '?'
}

pub fn terminal_punct(c: char) -> (r: bool)
    ensures
        r == is_terminal_punct(c),
{
    c == '.' || c == '!' || c == '?'
}

/// Whether a character has the Unicode `Alphabetic` property.
pub uninterp spec fn alpha_char(c: char) -> bool;

/// Relies on `char::is_alphabetic`: true exactly for the Unicode `Alphabetic`
/// property; on ASCII this holds exactly for the letters a-z and A-Z.
#[verifier::external_body]
pub(crate) fn char_is_alphabetic(c: char) -> (r: bool)
    ensures
        r == alpha_char(c),
        (c as u32) < 0x80 ==> r == (0x41 <= c as u32 && c as u32 <= 0x5A || 0x61 <= c as u32
            && c as u32 <= 0x7A),
{
    c.is_alphabetic()
}

/// Whether a character has the Unicode `Uppercase` property.
pub uninterp spec fn upper_char(c: char) -> bool;

/// Relies on `char::is_uppercase`: true exactly for the Unicode `Uppercase`
/// property; on ASCII this holds exactly for the letters A-Z, and it holds
/// for no whitespace character.
#[verifier::external_body]
pub(crate) fn char_is_uppercase(c: char) -> (r: bool)
    ensures
        r == upper_char(c),
        (c as u32) < 0x80 ==> r == (0x41 <= c as u32 && c as u32 <= 0x5A),
        is_ws_char(c) ==> !r,
{
    c.is_uppercase()
}

} // verus!
