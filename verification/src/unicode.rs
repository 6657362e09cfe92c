//! Character classes: Unicode `White_Space` (written out, it is a short
//! list), the `Alphabetic` property (through std) and the display width
//! of a char (through `unicode-width`).

use vstd::prelude::*;
use unicode_width::UnicodeWidthChar;

verus! {

/// The Unicode `White_Space` property, which `char::is_whitespace` and
/// `str::trim` use.
pub open spec fn is_white_space(c: char) -> bool {
    let u = c as u32;
    ||| (0x09 <= u && u <= 0x0D)
    ||| u == 0x20
    ||| u == 0x85
    ||| u == 0xA0
    ||| u == 0x1680
    ||| (0x2000 <= u && u <= 0x200A)
    ||| u == 0x2028
    ||| u == 0x2029
    ||| u == 0x202F
    ||| u == 0x205F
    ||| u == 0x3000
}

/// Whether `c` has the Unicode `White_Space` property.
pub fn white_space(c: char) -> (b: bool)
    ensures
        b == is_white_space(c),
{
    let u = c as u32;
    (0x09 <= u && u <= 0x0D) || u == 0x20 || u == 0x85 || u == 0xA0 || u == 0x1680
        || (0x2000 <= u && u <= 0x200A) || u == 0x2028 || u == 0x2029 || u == 0x202F
        || u == 0x205F || u == 0x3000
}

/// Whether `c` has the Unicode `Alphabetic` derived property, as
/// `char::is_alphabetic` reports it.
pub uninterp spec fn unicode_alphabetic(c: char) -> bool;

/// Calls `char::is_alphabetic`. Its documentation says it returns true
/// when `c` has the `Alphabetic` property, a table of many pages; the
/// contract only names that answer as `unicode_alphabetic(c)`.
#[verifier::external_body]
pub(crate) fn is_alphabetic(c: char) -> (b: bool)
    ensures
        b == unicode_alphabetic(c),
{
    c.is_alphabetic()
}

/// Display width of `c` in terminal columns, as `unicode-width` computes
/// it (`None` for control characters).
pub uninterp spec fn unicode_char_width(c: char) -> Option<usize>;

/// Calls `<char as unicode_width::UnicodeWidthChar>::width`. The result is
/// named `unicode_char_width(c)`; beyond the name the contract states
/// what the crate's lookup code shows directly: U+0000..U+001F and
/// U+007F..U+009F are control characters (`None`), the rest of ASCII is
/// one column wide, every other char has some width, and no width
/// exceeds three columns (the lookup table stores two-bit entries and its
/// exceptions are at most 3).
#[verifier::external_body]
pub(crate) fn char_width(c: char) -> (w: Option<usize>)
    ensures
        w == unicode_char_width(c),
        ((c as u32) < 0x20 || (0x7F <= (c as u32) && (c as u32) < 0xA0)) <==> w is None,
        (0x20 <= (c as u32) && (c as u32) < 0x7F) ==> w == Some(1usize),
        w matches Some(x) ==> x <= 3,
{
    c.width()
}

/// Columns a char occupies in a painted cell run: its display width, with
/// control characters counted as one column.
pub open spec fn cell_width(c: char) -> nat {
    match unicode_char_width(c) {
        Some(w) => w as nat,
        None => 1,
    }
}

/// `char_width(c).unwrap_or(1)`.
pub fn cell_width_of(c: char) -> (w: usize)
    ensures
        w == cell_width(c),
        w <= 3,
{
    match char_width(c) {
        Some(w) => w,
        None => 1,
    }
}

} // verus!
