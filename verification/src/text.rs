//! Character classification and the two text primitives the library
//! builds on.

use vstd::prelude::*;

verus! {

/// Is `c` one of the four JSON whitespace characters?
pub open spec fn is_ws_char(c: char) -> bool {
    c == ' ' || c == '\n' || c == '\t' || c == '\r'
}

/// Is `c` a decimal digit?
pub open spec fn is_digit_char(c: char) -> bool {
    0x30 <= c as u32 && c as u32 <= 0x39
}

/// Is `c` a hexadecimal digit (either case)?
pub open spec fn is_hex_char(c: char) -> bool {
    is_digit_char(c) || (0x41 <= c as u32 && c as u32 <= 0x46) || (0x61 <= c as u32 && c as u32
        <= 0x66)
}

/// The numeric value of the hexadecimal digit `c`.
pub open spec fn hex_value(c: char) -> int
    recommends
        is_hex_char(c),
{
    if 0x41 <= c as u32 && c as u32 <= 0x46 {
        c as u32 - 0x37
    } else if 0x61 <= c as u32 && c as u32 <= 0x66 {
        c as u32 - 0x57
    } else {
        c as u32 - 0x30
    }
}

/// A code point that may stand unescaped inside a string literal:
/// everything from U+0020 up, except `"` (U+0022) and `\` (U+005C).
pub open spec fn is_unescaped_char(c: char) -> bool {
    (0x20 <= c as u32 && c as u32 <= 0x21) || (0x23 <= c as u32 && c as u32 <= 0x5b) || 0x5d <= c
        as u32
}

/// Executable form of `is_ws_char`.
pub fn ws_char(c: char) -> (b: bool)
    ensures
        b == is_ws_char(c),
{
    c == ' ' || c == '\n' || c == '\t' || c == '\r'
}

/// Executable form of `is_digit_char`.
pub fn digit_char(c: char) -> (b: bool)
    ensures
        b == is_digit_char(c),
{
    let u = c as u32;
    0x30 <= u && u <= 0x39
}

/// Executable form of `is_hex_char`.
pub fn hex_char(c: char) -> (b: bool)
    ensures
        b == is_hex_char(c),
{
    let u = c as u32;
    (0x30 <= u && u <= 0x39) || (0x41 <= u && u <= 0x46) || (0x61 <= u && u <= 0x66)
}

/// Executable form of `hex_value`.
pub fn hex_digit_value(c: char) -> (v: u16)
    requires
        is_hex_char(c),
    ensures
        v == hex_value(c),
        v <= 15,
{
    let u = c as u32;
    if 0x41 <= u && u <= 0x46 {
        (u - 0x37) as u16
    } else if 0x61 <= u && u <= 0x66 {
        (u - 0x57) as u16
    } else {
        (u - 0x30) as u16
    }
}

/// Executable form of `is_unescaped_char`.
pub fn unescaped_char(c: char) -> (b: bool)
    ensures
        b == is_unescaped_char(c),
{
    let u = c as u32;
    (0x20 <= u && u <= 0x21) || (0x23 <= u && u <= 0x5b) || 0x5d <= u
}

/// Binds the character at position `i` of `s` to a fresh name.
///
/// Spec-level sequence elements are encoded behind a boxing layer;
/// naming one through this function gives proofs a plain `char`
/// variable to build terms with.
pub proof fn char_at(s: Seq<char>, i: int) -> (c: char)
    ensures
        c == s[i],
{
    s[i]
}

/// Relies on `String::push` from std: it appends exactly the one
/// character `c` to the end of the string.
#[verifier::external_body]
pub fn push_char(s: &mut String, c: char)
    ensures
        final(s)@ == old(s)@.push(c),
{
    s.push(c);
}

/// Relies on `char::from_u32` from std: it returns `Some` of the
/// character with scalar value `u` exactly when `u` is a Unicode
/// scalar value, which the precondition guarantees.
#[verifier::external_body]
pub fn char_from_code(u: u32) -> (c: char)
    requires
        u < 0xd800 || (0xe000 <= u && u <= 0x10ffff),
    ensures
        c as u32 == u,
{
    char::from_u32(u).unwrap()
}

} // verus!
