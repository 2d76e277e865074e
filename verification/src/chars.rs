//! What the library takes on trust about characters and strings of the
//! standard library.

use vstd::prelude::*;

verus! {

/// Whether `c`, a character beyond ASCII, is white space in the sense of
/// `char::is_whitespace`.
pub uninterp spec fn wide_white_space(c: char) -> bool;

/// Whether `c` is white space in the sense of `char::is_whitespace`. Among
/// the ASCII characters these are the space and the characters from the
/// horizontal tab to the carriage return; beyond ASCII the set is that of
/// the standard library and is not restated.
pub open spec fn white_space(c: char) -> bool {
    if c as u32 <= 0x7f {
        c == ' ' || 0x09 <= c as u32 <= 0x0d
    } else {
        wide_white_space(c)
    }
}

/// `char::is_whitespace` tells whether a character has the Unicode property
/// `White_Space`. Trusted: the answer depends on the character alone. Of the
/// ASCII characters the property holds of U+0020 and of U+0009 to U+000D and
/// of no other; for the characters beyond ASCII the answer is what
/// [`wide_white_space`] names.
pub assume_specification[ char::is_whitespace ](c: char) -> (blank: bool)
    ensures
        blank == white_space(c),
        c as u32 <= 0x7f ==> blank == (c == ' ' || 0x09 <= c as u32 <= 0x0d),
        c as u32 > 0x7f ==> blank == wide_white_space(c),
;

/// `String::push` appends one character to the end of a string. Trusted:
/// the string afterwards is the string before with the character added.
pub assume_specification[ String::push ](text: &mut String, ch: char)
    ensures
        final(text)@ == old(text)@.push(ch),
;

} // verus!
