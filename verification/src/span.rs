//! Styled byte ranges on a buffer row.

use vstd::prelude::*;

verus! {

/// One styled byte range on a buffer row.
///
/// Style spans are opaque-id tuples: the buffer does not own colors, the
/// host keeps the table that maps `style` to something renderable.
///
/// Byte ranges are half-open, `[start_byte, end_byte)`, and line up with
/// the row's `String` so callers can slice without re-deriving indices.
#[derive(Debug, Clone, Copy, PartialEq, Eq, Structural)]
pub struct Span {
    pub start_byte: usize,
    pub end_byte: usize,
    /// Opaque style id resolved by the host's render layer.
    pub style: u32,
}

impl Span {
    /// Width in bytes: `end_byte - start_byte`, or zero when the range is
    /// reversed.
    pub open spec fn spec_len(self) -> nat {
        if self.end_byte >= self.start_byte {
            (self.end_byte - self.start_byte) as nat
        } else {
            0
        }
    }

    /// The range holds no byte.
    pub open spec fn spec_is_empty(self) -> bool {
        self.end_byte <= self.start_byte
    }

    /// Whether byte `b` lies inside the half-open range.
    pub open spec fn covers(self, b: int) -> bool {
        self.start_byte <= b < self.end_byte
    }

    pub fn new(start_byte: usize, end_byte: usize, style: u32) -> (s: Self)
        ensures
            s.start_byte == start_byte,
            s.end_byte == end_byte,
            s.style == style,
    {
        Span { start_byte, end_byte, style }
    }

    /// Width of the span in bytes; useful for render-cache fingerprints.
    pub fn len(self) -> (n: usize)
        ensures
            n == self.spec_len(),
    {
        self.end_byte.saturating_sub(self.start_byte)
    }

    pub fn is_empty(self) -> (b: bool)
        ensures
            b == self.spec_is_empty(),
    {
        self.end_byte <= self.start_byte
    }
}

/// A span is empty exactly when its width is zero, and an empty span
/// covers no byte.
pub proof fn lemma_empty_iff_zero_len(s: Span)
    ensures
        s.spec_is_empty() <==> s.spec_len() == 0,
        s.spec_is_empty() ==> forall|b: int| !#[trigger] s.covers(b),
        s.spec_len() == s.end_byte - s.start_byte || s.spec_is_empty(),
{
}

/// The number of bytes a span covers is its width.
pub proof fn lemma_len_counts_covered_bytes(s: Span)
    ensures
        s.spec_len() == Set::new(|b: int| s.covers(b)).len(),
        Set::new(|b: int| s.covers(b)).finite(),
{
    let covered = Set::new(|b: int| s.covers(b));
    let lo = s.start_byte as int;
    let hi = if s.end_byte >= s.start_byte { s.end_byte as int } else { lo };
    assert(covered =~= vstd::set_lib::set_int_range(lo, hi));
    vstd::set_lib::lemma_int_range(lo, hi);
}

} // verus!
