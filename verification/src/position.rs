//! `(row, col)` locations inside a buffer.

use vstd::prelude::*;
use vstd::std_specs::cmp::{PartialOrdSpec, PartialOrdSpecImpl};
use core::cmp::Ordering;
use crate::text::{is_char_start, byte_len, byte_offset_of, chars_of, utf8_width, lemma_byte_offset_step};

verus! {

/// A `(row, col)` location inside a buffer.
///
/// - `row` is zero-based, in logical lines (newline-separated). Wrapping is
///   a render-only concern; no `Position` ever points at a display line.
/// - `col` is zero-based, the char index within the line: not bytes, not
///   graphemes, not display columns. [`Position::byte_offset`] converts it
///   back to a byte offset when slicing the underlying `String`.
///
/// A `Position` is valid for a buffer when `row` is below the line count
/// and `col` is at most the char count of that line (one past the last
/// char is where insert mode lives).
///
/// Positions order row-major: first by `row`, then by `col`.
#[derive(Debug, Clone, Copy, PartialEq, Eq, Structural, Ord, Hash, Default)]
pub struct Position {
    pub row: usize,
    pub col: usize,
}

impl Position {
    /// Row-major strict order.
    pub open spec fn before(self, other: Position) -> bool {
        self.row < other.row || (self.row == other.row && self.col < other.col)
    }

    /// Byte offset of char index `col` in a line whose chars are `line`;
    /// the line's byte length when `col` is at or past its end.
    pub open spec fn spec_byte_offset(self, line: Seq<char>) -> nat {
        if self.col < line.len() {
            byte_offset_of(line, self.col as int)
        } else {
            byte_len(line)
        }
    }

    pub fn new(row: usize, col: usize) -> (p: Self)
        ensures
            p.row == row,
            p.col == col,
    {
        Position { row, col }
    }

    /// Byte offset of `self.col` (a char index) into `line`. Returns
    /// `line.len()` when `col` is at or past the end of the line, which
    /// matches the boundary semantics of `String::insert` and
    /// `replace_range`: the result is always a char boundary of `line`.
    pub fn byte_offset(self, line: &str) -> (b: usize)
        requires
            byte_len(line@) <= usize::MAX,
        ensures
            b == self.spec_byte_offset(line@),
            b <= byte_len(line@),
            is_char_start(line@, b as int),
    {
        let chars = chars_of(line);
        let n = chars.len();
        proof {
            crate::text::lemma_byte_offset_full(line@);
        }
        if self.col >= n {
            assert(byte_offset_of(line@, n as int) == byte_len(line@));
            return line.len();
        }
        let mut acc: usize = 0;
        let mut i: usize = 0;
        while i < self.col
            invariant
                chars@ == line@,
                n == chars@.len(),
                self.col < n,
                i <= self.col,
                acc == byte_offset_of(line@, i as int),
                byte_len(line@) <= usize::MAX,
            decreases self.col - i,
        {
            proof {
                lemma_byte_offset_step(line@, i as int);
                crate::text::lemma_byte_offset_strictly_increasing(line@, i as int + 1, n as int);
                crate::text::lemma_byte_offset_full(line@);
            }
            acc = acc + utf8_width(chars[i]);
            i = i + 1;
        }
        proof {
            crate::text::lemma_byte_offset_strictly_increasing(line@, i as int, n as int);
        }
        acc
    }
}

impl PartialOrd for Position {
    fn partial_cmp(&self, other: &Self) -> (r: Option<Ordering>) {
        if self.row < other.row {
            Some(Ordering::Less)
        } else if self.row > other.row {
            Some(Ordering::Greater)
        } else if self.col < other.col {
            Some(Ordering::Less)
        } else if self.col > other.col {
            Some(Ordering::Greater)
        } else {
            Some(Ordering::Equal)
        }
    }
}

impl PartialOrdSpecImpl for Position {
    open spec fn obeys_partial_cmp_spec() -> bool {
        true
    }

    open spec fn partial_cmp_spec(&self, other: &Position) -> Option<Ordering> {
        if self.row < other.row {
            Some(Ordering::Less)
        } else if self.row > other.row {
            Some(Ordering::Greater)
        } else if self.col < other.col {
            Some(Ordering::Less)
        } else if self.col > other.col {
            Some(Ordering::Greater)
        } else {
            Some(Ordering::Equal)
        }
    }
}

/// Positions are ordered row-major: `p < q` exactly when `p` lies on an
/// earlier row, or on the same row at a smaller column; `p == q` exactly
/// when both coordinates agree; and the order is total.
pub proof fn lemma_order_is_row_major(p: Position, q: Position)
    ensures
        (PartialOrdSpec::partial_cmp_spec(&p, &q) == Some(Ordering::Less)) <==> p.before(q),
        (PartialOrdSpec::partial_cmp_spec(&p, &q) == Some(Ordering::Greater)) <==> q.before(p),
        (PartialOrdSpec::partial_cmp_spec(&p, &q) == Some(Ordering::Equal)) <==> p == q,
        PartialOrdSpec::partial_cmp_spec(&p, &q) is Some,
{
}

} // verus!
