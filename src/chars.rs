use vstd::prelude::*;

verus! {

/// What `char::is_alphabetic` answers (the Unicode `Alphabetic` property).
pub uninterp spec fn alphabetic(c: char) -> bool;

/// What `char::is_alphanumeric` answers (`Alphabetic` or `Numeric`).
pub uninterp spec fn alphanumeric(c: char) -> bool;

pub open spec fn is_ascii_letter(c: char) -> bool {
    ('a' <= c && c <= 'z') || ('A' <= c && c <= 'Z')
}

pub open spec fn is_digit(c: char) -> bool {
    '0' <= c && c <= '9'
}

/// A character that may begin an identifier. Within ASCII the Unicode
/// `Alphabetic` property holds of the letters alone.
pub open spec fn starts_word(c: char) -> bool {
    if (c as u32) < 128 {
        is_ascii_letter(c)
    } else {
        alphabetic(c)
    }
}

/// A character that may continue an identifier. Within ASCII the Unicode
/// `Alphabetic` and `Numeric` properties hold of the letters and digits alone.
pub open spec fn continues_word(c: char) -> bool {
    if (c as u32) < 128 {
        is_ascii_letter(c) || is_digit(c)
    } else {
        alphanumeric(c)
    }
}

/// Relies on `char::is_alphabetic`: true exactly of the characters with the
/// Unicode `Alphabetic` property, which within ASCII are the letters.
#[verifier::external_body]
pub(crate) fn is_word_start(c: char) -> (r: bool)
    ensures
        r == starts_word(c),
        (c as u32) >= 128 ==> r == alphabetic(c),
{
    c.is_alphabetic()
}

/// Relies on `char::is_alphanumeric`: true exactly of the characters with the
/// Unicode `Alphabetic` or `Numeric` property, which within ASCII are the
/// letters and the digits.
#[verifier::external_body]
pub(crate) fn is_word_char(c: char) -> (r: bool)
    ensures
        r == continues_word(c),
        (c as u32) >= 128 ==> r == alphanumeric(c),
{
    c.is_alphanumeric()
}

/// Relies on `String::push`: appends one character.
#[verifier::external_body]
pub(crate) fn push_char(s: &mut String, c: char)
    ensures
        final(s)@ == old(s)@.push(c),
{
    s.push(c)
}

} // verus!
