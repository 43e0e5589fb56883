//! The letter alphabet that words are made of, and its case mapping.
//!
//! Recognized letters are the ASCII letters, the letters of Latin-1
//! (umlauts and `ß` among them), capital sharp s `ẞ` and `Ÿ`.
use vstd::prelude::*;

verus! {

pub open spec fn is_upper_spec(c: char) -> bool {
    ('A' <= c && c <= 'Z') || ('\u{C0}' <= c && c <= '\u{DE}' && c != '\u{D7}') || c == '\u{178}'
        || c == '\u{1E9E}'
}

pub open spec fn is_lower_spec(c: char) -> bool {
    ('a' <= c && c <= 'z') || ('\u{DF}' <= c && c <= '\u{FF}' && c != '\u{F7}')
}

pub open spec fn is_letter_spec(c: char) -> bool {
    is_upper_spec(c) || is_lower_spec(c)
}

/// The lowercase form of a letter; other characters are left as they are.
pub open spec fn lower_char(c: char) -> char {
    if c == '\u{1E9E}' {
        '\u{DF}'
    } else if c == '\u{178}' {
        '\u{FF}'
    } else if is_upper_spec(c) {
        ((c as u32) + 32) as char
    } else {
        c
    }
}

/// The uppercase form of a letter; other characters are left as they are.
pub open spec fn upper_char(c: char) -> char {
    if c == '\u{DF}' {
        '\u{1E9E}'
    } else if c == '\u{FF}' {
        '\u{178}'
    } else if is_lower_spec(c) {
        ((c as u32) - 32) as char
    } else {
        c
    }
}

#[verifier::when_used_as_spec(is_upper_spec)]
pub fn is_upper(c: char) -> (r: bool)
    ensures
        r == is_upper_spec(c),
{
    ('A' <= c && c <= 'Z') || ('\u{C0}' <= c && c <= '\u{DE}' && c != '\u{D7}') || c == '\u{178}'
        || c == '\u{1E9E}'
}

#[verifier::when_used_as_spec(is_lower_spec)]
pub fn is_lower(c: char) -> (r: bool)
    ensures
        r == is_lower_spec(c),
{
    ('a' <= c && c <= 'z') || ('\u{DF}' <= c && c <= '\u{FF}' && c != '\u{F7}')
}

#[verifier::when_used_as_spec(is_letter_spec)]
pub fn is_letter(c: char) -> (r: bool)
    ensures
        r == is_letter_spec(c),
{
    is_upper(c) || is_lower(c)
}

pub fn to_lower(c: char) -> (r: char)
    ensures
        r == lower_char(c),
{
    if c == '\u{1E9E}' {
        '\u{DF}'
    } else if c == '\u{178}' {
        '\u{FF}'
    } else if is_upper(c) {
        let b: u8 = ((c as u32) + 32) as u8;
        b as char
    } else {
        c
    }
}

pub fn to_upper(c: char) -> (r: char)
    ensures
        r == upper_char(c),
{
    if c == '\u{DF}' {
        '\u{1E9E}'
    } else if c == '\u{FF}' {
        '\u{178}'
    } else if is_lower(c) {
        let b: u8 = ((c as u32) - 32) as u8;
        b as char
    } else {
        c
    }
}

/// Case mapping turns letters into letters of the intended case.
pub proof fn lemma_case_mapping(c: char)
    ensures
        is_letter_spec(c) ==> is_lower_spec(lower_char(c)),
        is_letter_spec(c) ==> is_upper_spec(upper_char(c)),
        !is_letter_spec(c) ==> lower_char(c) == c && upper_char(c) == c,
{
}

} // verus!
