//! Soft-wrap segmentation of one logical line into screen rows.

use vstd::prelude::*;
use crate::text::chars_of;
use crate::unicode::{cell_width, cell_width_of, is_white_space, white_space};

verus! {

/// How a logical line longer than the text area is shown.
#[derive(Debug, Clone, Copy, PartialEq, Eq, Structural)]
pub enum Wrap {
    /// One screen row per line; the rest is reached by horizontal scroll.
    Off,
    /// Break at the last char that fits.
    Char,
    /// Break after the last whitespace that fits; a run without
    /// whitespace falls back to a char break.
    Word,
}

/// The end of the longest run of chars from `i` on whose cell widths,
/// added to `used`, stay within `w`.
pub open spec fn fit_end(line: Seq<char>, i: int, used: nat, w: nat) -> int
    decreases line.len() - i,
{
    if i < 0 || i >= line.len() || used + cell_width(line[i]) > w {
        if i < 0 { 0 } else if i > line.len() { line.len() as int } else { i }
    } else {
        fit_end(line, i + 1, used + cell_width(line[i]), w)
    }
}

/// The index of the last whitespace char in `line[start..end)`, if any.
pub open spec fn last_space(line: Seq<char>, start: int, end: int) -> Option<int>
    decreases end - start,
{
    if end <= start {
        None
    } else if is_white_space(line[end - 1]) {
        Some(end - 1)
    } else {
        last_space(line, start, end - 1)
    }
}

/// Where the screen row that starts at char `start` ends: as many chars as
/// fit in `w` columns (at least one); in word mode, when the line goes on
/// past that point, backed up to just after the last whitespace in the run.
pub open spec fn segment_end(line: Seq<char>, start: int, w: nat, mode: Wrap) -> int {
    let fit = fit_end(line, start, 0, w);
    let e = if fit > start { fit } else { start + 1 };
    if e < line.len() && mode == Wrap::Word {
        match last_space(line, start, e) {
            Some(k) => k + 1,
            None => e,
        }
    } else {
        e
    }
}

/// Segments of `line` from char `start` on.
pub open spec fn segments_from(line: Seq<char>, start: int, w: nat, mode: Wrap) -> Seq<(int, int)>
    decreases line.len() - start,
{
    if start < 0 || start >= line.len() {
        Seq::<(int, int)>::empty()
    } else {
        let e = segment_end(line, start, w, mode);
        if e <= start || e > line.len() {
            Seq::<(int, int)>::empty()
        } else {
            seq![(start, e)] + segments_from(line, e, w, mode)
        }
    }
}

/// The screen segments of `line` as half-open char ranges: the whole line
/// when not wrapping or when the line is empty, otherwise the greedy
/// segmentation in `max(width, 1)` columns.
pub open spec fn wrapped(line: Seq<char>, width: u16, mode: Wrap) -> Seq<(int, int)> {
    if mode == Wrap::Off || line.len() == 0 {
        seq![(0, line.len() as int)]
    } else {
        segments_from(line, 0, if width == 0 { 1 } else { width as nat }, mode)
    }
}

proof fn lemma_fit_end_bounds(line: Seq<char>, i: int, used: nat, w: nat)
    requires
        0 <= i <= line.len(),
    ensures
        i <= fit_end(line, i, used, w) <= line.len(),
    decreases line.len() - i,
{
    if i < line.len() && used + cell_width(line[i]) <= w {
        lemma_fit_end_bounds(line, i + 1, used + cell_width(line[i]), w);
    }
}

proof fn lemma_last_space_bounds(line: Seq<char>, start: int, end: int)
    ensures
        last_space(line, start, end) matches Some(k) ==> start <= k < end && is_white_space(line[k]),
    decreases end - start,
{
    if end > start && !is_white_space(line[end - 1]) {
        lemma_last_space_bounds(line, start, end - 1);
    }
}

proof fn lemma_segment_end_bounds(line: Seq<char>, start: int, w: nat, mode: Wrap)
    requires
        0 <= start < line.len(),
    ensures
        start < segment_end(line, start, w, mode) <= line.len(),
{
    lemma_fit_end_bounds(line, start, 0, w);
    let fit = fit_end(line, start, 0, w);
    let e = if fit > start { fit } else { start + 1 };
    lemma_last_space_bounds(line, start, e);
}

/// Split `line` into screen segments of at most `width` columns (see
/// [`wrapped`]). Each segment is a half-open range of char indices.
pub fn wrap_segments(line: &str, width: u16, mode: Wrap) -> (segs: Vec<(usize, usize)>)
    ensures
        segs@.len() == wrapped(line@, width, mode).len(),
        forall|i: int|
            0 <= i < segs@.len() ==> (#[trigger] segs@[i]).0 as int == wrapped(line@, width, mode)[i].0
                && segs@[i].1 as int == wrapped(line@, width, mode)[i].1,
{
    let chars = chars_of(line);
    let n = chars.len();
    let mut segs: Vec<(usize, usize)> = Vec::new();
    if mode == Wrap::Off || n == 0 {
        segs.push((0, n));
        return segs;
    }
    let w: usize = if width == 0 { 1 } else { width as usize };
    let ghost wn: nat = w as nat;
    let mut start: usize = 0;
    while start < n
        invariant
            chars@ == line@,
            n == chars@.len(),
            n > 0,
            mode != Wrap::Off,
            w == wn,
            wn == (if width == 0 { 1 } else { width as nat }),
            start <= n,
            segs@.len() + segments_from(line@, start as int, wn, mode).len()
                == segments_from(line@, 0, wn, mode).len(),
            forall|i: int|
                0 <= i < segs@.len() ==> (#[trigger] segs@[i]).0 as int == segments_from(
                    line@,
                    0,
                    wn,
                    mode,
                )[i].0 && segs@[i].1 as int == segments_from(line@, 0, wn, mode)[i].1,
            forall|i: int|
                0 <= i < segments_from(line@, start as int, wn, mode).len() ==> #[trigger] segments_from(
                    line@,
                    start as int,
                    wn,
                    mode,
                )[i] == segments_from(line@, 0, wn, mode)[segs@.len() + i],
        decreases n - start,
    {
        // Longest run that fits.
        let mut used: usize = 0;
        let mut i = start;
        while i < n && cell_width_of(chars[i]) <= w - used
            invariant
                chars@ == line@,
                n == chars@.len(),
                start <= i <= n,
                used <= w,
                w == wn,
                fit_end(line@, i as int, used as nat, wn) == fit_end(line@, start as int, 0, wn),
            decreases n - i,
        {
            used = used + cell_width_of(chars[i]);
            i = i + 1;
        }
        proof {
            if i < n {
                assert(used + cell_width(line@[i as int]) > wn);
            }
        }
        let e = if i > start { i } else { start + 1 };
        let mut end = e;
        if e < n && mode == Wrap::Word {
            let mut k = e;
            while k > start && !white_space(chars[k - 1])
                invariant
                    chars@ == line@,
                    n == chars@.len(),
                    start <= k <= e <= n,
                    last_space(line@, start as int, k as int) == last_space(line@, start as int, e as int),
                decreases k,
            {
                k = k - 1;
            }
            if k > start {
                end = k;
            }
        }
        proof {
            lemma_segment_end_bounds(line@, start as int, wn, mode);
            assert(end == segment_end(line@, start as int, wn, mode));
            let rest = segments_from(line@, start as int, wn, mode);
            assert(rest == seq![(start as int, end as int)] + segments_from(line@, end as int, wn, mode));
            assert(rest[0] == (start as int, end as int));
        }
        segs.push((start, end));
        proof {
            let rest = segments_from(line@, start as int, wn, mode);
            let next = segments_from(line@, end as int, wn, mode);
            assert forall|j: int| 0 <= j < next.len() implies #[trigger] next[j] == segments_from(
                line@,
                0,
                wn,
                mode,
            )[segs@.len() + j] by {
                assert(next[j] == rest[j + 1]);
            };
        }
        start = end;
    }
    segs
}

/// Total cell width of `line[a..b)`.
pub open spec fn cells(line: Seq<char>, a: int, b: int) -> nat
    decreases b - a,
{
    if b <= a {
        0
    } else {
        cells(line, a, b - 1) + cell_width(line[b - 1])
    }
}

proof fn lemma_fit_end_cells(line: Seq<char>, start: int, i: int, used: nat, w: nat)
    requires
        0 <= start <= i <= line.len(),
        used == cells(line, start, i),
        used <= w,
    ensures
        cells(line, start, fit_end(line, i, used, w)) <= w,
    decreases line.len() - i,
{
    if i < line.len() && used + cell_width(line[i]) <= w {
        lemma_fit_end_cells(line, start, i + 1, used + cell_width(line[i]), w);
    }
}

proof fn lemma_cells_monotone(line: Seq<char>, a: int, b: int, c: int)
    requires
        a <= b <= c,
    ensures
        cells(line, a, b) <= cells(line, a, c),
    decreases c - b,
{
    if b < c {
        lemma_cells_monotone(line, a, b, c - 1);
    }
}

proof fn lemma_segment_end_fits(line: Seq<char>, start: int, w: nat, mode: Wrap)
    requires
        0 <= start < line.len(),
    ensures
        segment_end(line, start, w, mode) == start + 1 || cells(line, start, segment_end(line, start, w, mode)) <= w,
{
    lemma_fit_end_bounds(line, start, 0, w);
    lemma_fit_end_cells(line, start, start, 0, w);
    let fit = fit_end(line, start, 0, w);
    let e = if fit > start { fit } else { start + 1 };
    lemma_last_space_bounds(line, start, e);
    let end = segment_end(line, start, w, mode);
    if end != e {
        lemma_cells_monotone(line, start, end, e);
    }
}

proof fn lemma_segments_from_tile(line: Seq<char>, start: int, w: nat, mode: Wrap)
    requires
        0 <= start < line.len(),
    ensures
        ({
            let s = segments_from(line, start, w, mode);
            &&& s.len() >= 1
            &&& s[0].0 == start
            &&& s.last().1 == line.len()
            &&& forall|i: int| 0 <= i < s.len() - 1 ==> (#[trigger] s[i]).1 == s[i + 1].0
            &&& forall|i: int| 0 <= i < s.len() ==> (#[trigger] s[i]).0 < s[i].1
            &&& forall|i: int| 0 <= i < s.len() ==> ((#[trigger] s[i]).1 == s[i].0 + 1
                || cells(line, s[i].0, s[i].1) <= w)
        }),
    decreases line.len() - start,
{
    lemma_segment_end_bounds(line, start, w, mode);
    lemma_segment_end_fits(line, start, w, mode);
    let e = segment_end(line, start, w, mode);
    let s = segments_from(line, start, w, mode);
    if e < line.len() {
        lemma_segments_from_tile(line, e, w, mode);
        let t = segments_from(line, e, w, mode);
        assert(s == seq![(start, e)] + t);
        assert forall|i: int| 0 <= i < s.len() - 1 implies (#[trigger] s[i]).1 == s[i + 1].0 by {
            if i > 0 {
                assert(s[i] == t[i - 1]);
                assert(s[i + 1] == t[i]);
            }
        };
        assert forall|i: int| 0 <= i < s.len() implies ((#[trigger] s[i]).1 == s[i].0 + 1
            || cells(line, s[i].0, s[i].1) <= w) && s[i].0 < s[i].1 by {
            if i > 0 {
                assert(s[i] == t[i - 1]);
            }
        };
    } else {
        assert(segments_from(line, e, w, mode) =~= Seq::<(int, int)>::empty());
        assert(s =~= seq![(start, e)]);
    }
}

/// The segments of a line tile it in order: the first starts at char 0,
/// the last ends at the line's char count, each starts where the previous
/// one ended, and each is non-empty unless the line is. When wrapping,
/// no segment is wider than the text area (`max(width, 1)` columns)
/// unless it holds a single char.
pub proof fn lemma_segments_tile_line(line: Seq<char>, width: u16, mode: Wrap)
    ensures
        ({
            let s = wrapped(line, width, mode);
            let w: nat = if width == 0 { 1 } else { width as nat };
            &&& s.len() >= 1
            &&& s[0].0 == 0
            &&& s.last().1 == line.len()
            &&& forall|i: int| 0 <= i < s.len() - 1 ==> (#[trigger] s[i]).1 == s[i + 1].0
            &&& line.len() > 0 ==> forall|i: int| 0 <= i < s.len() ==> (#[trigger] s[i]).0 < s[i].1
            &&& mode != Wrap::Off ==> forall|i: int| 0 <= i < s.len() ==> ((#[trigger] s[i]).1 == s[i].0 + 1
                || cells(line, s[i].0, s[i].1) <= w)
        }),
{
    if mode != Wrap::Off && line.len() > 0 {
        lemma_segments_from_tile(line, 0, if width == 0 { 1 } else { width as nat }, mode);
    }
}

proof fn lemma_fit_end_maximal(line: Seq<char>, start: int, i: int, used: nat, w: nat)
    requires
        0 <= start <= i <= line.len(),
        used == cells(line, start, i),
    ensures
        fit_end(line, i, used, w) < line.len() ==> cells(line, start, fit_end(line, i, used, w) + 1) > w,
    decreases line.len() - i,
{
    if i < line.len() && used + cell_width(line[i]) <= w {
        lemma_fit_end_maximal(line, start, i + 1, used + cell_width(line[i]), w);
    }
}

proof fn lemma_last_space_none(line: Seq<char>, start: int, end: int)
    ensures
        last_space(line, start, end) is None ==> forall|k: int| start <= k < end ==> !is_white_space(#[trigger] line[k]),
    decreases end - start,
{
    if end > start && !is_white_space(line[end - 1]) {
        lemma_last_space_none(line, start, end - 1);
    }
}

proof fn lemma_last_space_last(line: Seq<char>, start: int, end: int)
    ensures
        last_space(line, start, end) matches Some(k) ==> forall|m: int| k < m < end ==> !is_white_space(#[trigger] line[m]),
    decreases end - start,
{
    if end > start && !is_white_space(line[end - 1]) {
        lemma_last_space_last(line, start, end - 1);
    }
}

proof fn lemma_segment_end_breaks(line: Seq<char>, start: int, w: nat, mode: Wrap)
    requires
        0 <= start < line.len(),
        segment_end(line, start, w, mode) < line.len(),
    ensures
        mode == Wrap::Char ==> cells(line, start, segment_end(line, start, w, mode) + 1) > w,
        mode == Wrap::Word ==> (is_white_space(line[segment_end(line, start, w, mode) - 1])
            || forall|k: int| start <= k < segment_end(line, start, w, mode) ==> !is_white_space(#[trigger] line[k])),
        mode == Wrap::Word ==> forall|m: int| segment_end(line, start, w, mode) <= m < line.len()
            && cells(line, start, m + 1) <= w ==> !is_white_space(#[trigger] line[m]),
{
    lemma_fit_end_bounds(line, start, 0, w);
    lemma_fit_end_maximal(line, start, start, 0, w);
    let fit = fit_end(line, start, 0, w);
    let e = if fit > start { fit } else { start + 1 };
    lemma_last_space_bounds(line, start, e);
    lemma_last_space_none(line, start, e);
    lemma_last_space_last(line, start, e);
    if fit <= start {
        lemma_cells_monotone(line, start, start + 1, start + 2);
    }
    if mode == Wrap::Word {
        let end = segment_end(line, start, w, mode);
        assert forall|m: int| end <= m < line.len() && cells(line, start, m + 1) <= w implies !is_white_space(#[trigger] line[m]) by {
            if m >= e {
                lemma_cells_monotone(line, start, fit + 1, m + 1);
                if fit <= start {
                    lemma_cells_monotone(line, start, start + 1, m + 1);
                }
            }
        };
    }
}

proof fn lemma_segments_from_break(line: Seq<char>, start: int, w: nat, mode: Wrap)
    requires
        0 <= start < line.len(),
    ensures
        ({
            let s = segments_from(line, start, w, mode);
            forall|i: int| 0 <= i < s.len() - 1 ==> {
                &&& mode == Wrap::Char ==> cells(line, (#[trigger] s[i]).0, s[i].1 + 1) > w
                &&& mode == Wrap::Word ==> (is_white_space(line[s[i].1 - 1])
                    || forall|k: int| s[i].0 <= k < s[i].1 ==> !is_white_space(#[trigger] line[k]))
                &&& mode == Wrap::Word ==> forall|m: int| s[i].1 <= m < line.len() && cells(line, s[i].0, m + 1) <= w
                    ==> !is_white_space(#[trigger] line[m])
            }
        }),
    decreases line.len() - start,
{
    lemma_segment_end_bounds(line, start, w, mode);
    let e = segment_end(line, start, w, mode);
    let s = segments_from(line, start, w, mode);
    if e < line.len() {
        lemma_segment_end_breaks(line, start, w, mode);
        lemma_segments_from_break(line, e, w, mode);
        let t = segments_from(line, e, w, mode);
        assert(s == seq![(start, e)] + t);
        assert forall|i: int| 0 <= i < s.len() - 1 implies {
            &&& mode == Wrap::Char ==> cells(line, (#[trigger] s[i]).0, s[i].1 + 1) > w
            &&& mode == Wrap::Word ==> (is_white_space(line[s[i].1 - 1])
                || forall|k: int| s[i].0 <= k < s[i].1 ==> !is_white_space(#[trigger] line[k]))
            &&& mode == Wrap::Word ==> forall|m: int| s[i].1 <= m < line.len() && cells(line, s[i].0, m + 1) <= w
                ==> !is_white_space(#[trigger] line[m])
        } by {
            if i > 0 {
                assert(s[i] == t[i - 1]);
            }
        };
    } else {
        assert(segments_from(line, e, w, mode) =~= Seq::<(int, int)>::empty());
        assert(s =~= seq![(start, e)]);
    }
}

/// Rows break as late as the mode allows: in char mode every row but the
/// last is full, in that its next char would not have fit; in word mode
/// every row but the last ends just after whitespace, unless it holds no
/// whitespace at all (a run too long for one row, broken by chars), and
/// it ends after the *last* whitespace that fits: no char at or after the
/// row's end whose run from the row's start still fits in the width is
/// whitespace.
pub proof fn lemma_segments_break_late(line: Seq<char>, width: u16, mode: Wrap)
    ensures
        ({
            let s = wrapped(line, width, mode);
            let w: nat = if width == 0 { 1 } else { width as nat };
            forall|i: int| 0 <= i < s.len() - 1 ==> {
                &&& mode == Wrap::Char ==> cells(line, (#[trigger] s[i]).0, s[i].1 + 1) > w
                &&& mode == Wrap::Word ==> (is_white_space(line[s[i].1 - 1])
                    || forall|k: int| s[i].0 <= k < s[i].1 ==> !is_white_space(#[trigger] line[k]))
                &&& mode == Wrap::Word ==> forall|m: int| s[i].1 <= m < line.len() && cells(line, s[i].0, m + 1) <= w
                    ==> !is_white_space(#[trigger] line[m])
            }
        }),
{
    if mode != Wrap::Off && line.len() > 0 {
        lemma_segments_from_break(line, 0, if width == 0 { 1 } else { width as nat }, mode);
    }
}

} // verus!
