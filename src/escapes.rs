//! Removal of terminal control sequences from text.

use vstd::prelude::*;

verus! {

/// A character that a terminal displays, as opposed to a C0 or C1 control code.
pub open spec fn is_printable(c: char) -> bool {
    !((c as u32) < 0x20 || (0x80 <= (c as u32) && (c as u32) <= 0x9f))
}

/// Text made only of displayable characters and line feeds: nothing in it
/// can start an escape sequence.
pub open spec fn is_plain_text(s: Seq<char>) -> bool {
    forall|i: int| 0 <= i < s.len() ==> (s[i] == '\n' || is_printable(#[trigger] s[i]))
}

/// The text that remains of `s` once every escape sequence and control code
/// other than the line feed has been removed.
pub uninterp spec fn escapes_stripped(s: Seq<char>) -> Seq<char>;

/// Relies on `strip_ansi_escapes::strip_str`: it feeds the text through a `vte`
/// parser that writes out each printed character and each executed line feed,
/// and nothing else. Printed characters are never C0 or C1 codes, and text of
/// such characters and line feeds alone never leaves the ground state, so it
/// comes back as it went in.
#[verifier::external_body]
fn strip_str(s: &str) -> (r: String)
    ensures
        r@ == escapes_stripped(s@),
        is_plain_text(r@),
        is_plain_text(s@) ==> r@ == s@,
        escapes_stripped(r@) == r@,
{
    strip_ansi_escapes::strip_str(s)
}

/// Removes the escape sequences (colours, cursor moves) and other control
/// codes from `raw`, keeping line feeds and every displayable character.
/// Stripping again changes nothing.
pub fn strip_escapes(raw: &str) -> (r: String)
    ensures
        r@ == escapes_stripped(raw@),
        is_plain_text(r@),
        is_plain_text(raw@) ==> r@ == raw@,
        escapes_stripped(r@) == r@,
{
    strip_str(raw)
}

} // verus!
