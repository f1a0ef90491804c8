//! How many terminal columns text takes.
use unicode_width::{UnicodeWidthChar, UnicodeWidthStr};
use vstd::prelude::*;

verus! {

/// The columns that `UnicodeWidthStr::width` gives to a text.
pub uninterp spec fn text_width(s: Seq<char>) -> usize;

/// The columns that `UnicodeWidthChar::width` gives to a character; none to a control
/// character.
pub uninterp spec fn char_width(c: char) -> Option<usize>;

/// Whether a character is printable ASCII.
pub open spec fn printable(c: char) -> bool {
    ' ' <= c <= '~'
}

/// Whether a character is printable ASCII or the horizontal ellipsis.
pub open spec fn narrow(c: char) -> bool {
    printable(c) || c == '\u{2026}'
}

/// Whether a text holds nothing but printable ASCII and horizontal ellipses.
pub open spec fn narrow_text(s: Seq<char>) -> bool {
    forall|i: int| 0 <= i < s.len() ==> narrow(#[trigger] s[i])
}

/// The columns a character takes up in a row: its width, and none for a control character.
pub open spec fn columns(c: char) -> nat {
    match char_width(c) {
        Some(w) => w as nat,
        None => 0,
    }
}

/// The columns that the characters of a text take up, one by one.
pub open spec fn text_columns(s: Seq<char>) -> nat
    decreases s.len(),
{
    if s.len() == 0 {
        0
    } else {
        text_columns(s.drop_last()) + columns(s.last())
    }
}

/// Calls `UnicodeWidthStr::width`: the displayed width of the text. Printable ASCII and
/// horizontal ellipses take a column a character, as they do one by one. A lone character takes
/// its own width, control characters aside.
#[verifier::external_body]
pub(crate) fn measure(s: &str) -> (w: usize)
    ensures
        w == text_width(s@),
        narrow_text(s@) ==> w == s@.len() && w == text_columns(s@),
        s@.len() == 1 && char_width(s@[0]) is Some ==> char_width(s@[0]) == Some(w),
{
    UnicodeWidthStr::width(s)
}

/// Calls `UnicodeWidthChar::width`: the displayed width of the character, `None` for a
/// control character. Printable ASCII and the horizontal ellipsis take one column.
#[verifier::external_body]
pub(crate) fn measure_char(c: char) -> (w: Option<usize>)
    ensures
        w == char_width(c),
        narrow(c) ==> w == Some(1usize),
        c < ' ' || '\u{7f}' <= c < '\u{a0}' ==> w is None,
{
    UnicodeWidthChar::width(c)
}

/// The columns a character takes up in a row.
pub fn columns_of(c: char) -> (w: usize)
    ensures
        w == columns(c),
        narrow(c) ==> w == 1,
{
    match measure_char(c) {
        Some(w) => w,
        None => 0,
    }
}

} // verus!
