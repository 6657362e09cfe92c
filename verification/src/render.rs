//! The decisions of the terminal view: which char and which style layers
//! land in which cell of the text area, the gutter and the fold markers.
//! The host applies the resulting paint operations to its cell grid.

use vstd::prelude::*;
use crate::span::Span;
use crate::text::chars_of;
use crate::unicode::{cell_width, cell_width_of};
use crate::motion::trim;

verus! {

/// Configuration of the line-number gutter left of the text area.
/// `width` is the total cell count reserved, including one trailing
/// spacer; the 1-based row number (plus `line_offset`) is right-aligned
/// into the leftmost `width - 1` cells. `style` is the host's style value,
/// carried through untouched.
#[derive(Debug, Clone, Copy, Default)]
pub struct Gutter<S> {
    pub width: u16,
    pub style: S,
    pub line_offset: usize,
}

/// Single-cell marker painted into the leftmost gutter column for a
/// document row (LSP diagnostics, diff signs, ...). Higher `priority`
/// wins when several signs land on the same row.
#[derive(Debug, Clone, Copy)]
pub struct Sign<S> {
    pub row: usize,
    pub ch: char,
    pub style: S,
    pub priority: u8,
}

/// Render-time substitution that hides the byte range
/// `[start_byte, end_byte)` of a row and paints `replacement` in its
/// place. The buffer's content stays unchanged; only the cells differ.
#[derive(Debug, Clone)]
pub struct Conceal {
    pub row: usize,
    pub start_byte: usize,
    pub end_byte: usize,
    pub replacement: String,
}

/// A fold over the document rows `start_row..=end_row`. A closed fold
/// shows as one marker row in place of its rows.
#[derive(Debug, Clone, Copy, PartialEq, Eq, Structural)]
pub struct Fold {
    pub start_row: usize,
    pub end_row: usize,
    pub closed: bool,
}

impl Fold {
    /// Rows past the first row of a closed fold are hidden.
    pub open spec fn spec_hides(self, row: int) -> bool {
        self.closed && self.start_row < row && row <= self.end_row
    }

    /// Number of rows the fold spans.
    pub open spec fn spec_line_count(self) -> nat {
        if self.end_row >= self.start_row {
            (self.end_row - self.start_row + 1) as nat
        } else {
            0
        }
    }

    pub fn hides(&self, row: usize) -> (b: bool)
        ensures
            b == self.spec_hides(row as int),
    {
        self.closed && self.start_row < row && row <= self.end_row
    }

    pub fn line_count(&self) -> (n: usize)
        requires
            self.end_row < usize::MAX,
        ensures
            n == self.spec_line_count(),
    {
        if self.end_row >= self.start_row {
            self.end_row - self.start_row + 1
        } else {
            0
        }
    }
}

/// The part of the document the view shows: the first visible row and
/// column, the screen size, the wrap mode and the width that wrapping
/// uses (zero until the host has published one).
#[derive(Debug, Clone, Copy, PartialEq, Eq, Structural)]
pub struct Viewport {
    pub top_row: usize,
    pub top_col: usize,
    pub width: u16,
    pub height: u16,
    pub wrap: crate::wrap::Wrap,
    pub text_width: u16,
}

/// Index of the span that styles byte `b`: the first span, in slice
/// order, that contains it.
pub open spec fn is_first_covering_span(spans: Seq<Span>, b: int, i: int) -> bool {
    &&& 0 <= i < spans.len()
    &&& spans[i].covers(b)
    &&& forall|j: int| 0 <= j < i ==> !(#[trigger] spans[j]).covers(b)
}

/// The span whose style paints the cell at byte `byte_offset` of a row:
/// the first span containing it wins; `None` when no span contains the
/// byte.
pub fn first_covering_span(row_spans: &[Span], byte_offset: usize) -> (r: Option<usize>)
    ensures
        r is None <==> forall|j: int| 0 <= j < row_spans@.len() ==> !(#[trigger] row_spans@[j]).covers(byte_offset as int),
        r matches Some(i) ==> is_first_covering_span(row_spans@, byte_offset as int, i as int),
{
    let mut i: usize = 0;
    while i < row_spans.len()
        invariant
            i <= row_spans@.len(),
            forall|j: int| 0 <= j < i ==> !(#[trigger] row_spans@[j]).covers(byte_offset as int),
        decreases row_spans@.len() - i,
    {
        let span = row_spans[i];
        if byte_offset >= span.start_byte && byte_offset < span.end_byte {
            return Some(i);
        }
        i = i + 1;
    }
    None
}

/// Index of the sign painted on row `row`: of the signs on that row, one
/// with the highest priority, the last of equal ones.
pub open spec fn is_winning_sign<S>(signs: Seq<Sign<S>>, row: int, i: int) -> bool {
    &&& 0 <= i < signs.len()
    &&& signs[i].row == row
    &&& forall|j: int| 0 <= j < signs.len() && (#[trigger] signs[j]).row == row ==> signs[j].priority <= signs[i].priority
    &&& forall|j: int| i < j < signs.len() && (#[trigger] signs[j]).row == row ==> signs[j].priority < signs[i].priority
}

/// The sign that wins document row `row`: the highest priority, and of
/// equal priorities the last one, as `Iterator::max_by_key` picks it.
pub fn winning_sign<S>(signs: &[Sign<S>], row: usize) -> (r: Option<usize>)
    ensures
        r is None <==> forall|j: int| 0 <= j < signs@.len() ==> (#[trigger] signs@[j]).row != row,
        r matches Some(i) ==> is_winning_sign(signs@, row as int, i as int),
{
    let mut best: Option<usize> = None;
    let mut i: usize = 0;
    while i < signs.len()
        invariant
            i <= signs@.len(),
            best is None <==> forall|j: int| 0 <= j < i ==> (#[trigger] signs@[j]).row != row,
            best matches Some(k) ==> k < i && signs@[k as int].row == row
                && (forall|j: int| 0 <= j < i && (#[trigger] signs@[j]).row == row ==> signs@[j].priority <= signs@[k as int].priority)
                && (forall|j: int| k < j < i && (#[trigger] signs@[j]).row == row ==> signs@[j].priority < signs@[k as int].priority),
        decreases signs@.len() - i,
    {
        if signs[i].row == row {
            match best {
                Some(b) if signs[b].priority > signs[i].priority => {},
                _ => {
                    best = Some(i);
                },
            }
        }
        i = i + 1;
    }
    best
}

/// The decimal digit `d` (below ten) as a char.
pub open spec fn digit_char(d: nat) -> char {
    if d == 0 { '0' } else if d == 1 { '1' } else if d == 2 { '2' } else if d == 3 { '3' }
    else if d == 4 { '4' } else if d == 5 { '5' } else if d == 6 { '6' } else if d == 7 { '7' }
    else if d == 8 { '8' } else { '9' }
}

/// Decimal representation of `n`, without leading zeros.
pub open spec fn decimal(n: nat) -> Seq<char>
    decreases n,
{
    if n < 10 {
        seq![digit_char(n)]
    } else {
        decimal(n / 10).push(digit_char(n % 10))
    }
}

/// `n` spaces.
pub open spec fn spaces(n: int) -> Seq<char> {
    Seq::new(if n > 0 { n as nat } else { 0 }, |i: int| ' ')
}

/// `n` right-aligned in a field of `w` chars, as `format!("{:>w$}", n)`.
pub open spec fn right_aligned(n: nat, w: int) -> Seq<char> {
    spaces(w - decimal(n).len()) + decimal(n)
}

fn digit_of(d: usize) -> (c: char)
    requires
        d < 10,
    ensures
        c == digit_char(d as nat),
{
    if d == 0 { '0' } else if d == 1 { '1' } else if d == 2 { '2' } else if d == 3 { '3' }
    else if d == 4 { '4' } else if d == 5 { '5' } else if d == 6 { '6' } else if d == 7 { '7' }
    else if d == 8 { '8' } else { '9' }
}

/// The decimal digits of `n`.
pub fn decimal_chars(n: usize) -> (v: Vec<char>)
    ensures
        v@ == decimal(n as nat),
{
    // Digits from the least significant one up, then reversed.
    let mut rev: Vec<char> = Vec::new();
    let mut m = n;
    let ghost mut suffix: Seq<char> = Seq::empty();
    loop
        invariant_except_break
            decimal(n as nat) == decimal(m as nat) + suffix,
            rev@ == suffix.reverse(),
        ensures
            decimal(n as nat) == suffix,
            rev@ == suffix.reverse(),
        decreases m,
    {
        if m < 10 {
            rev.push(digit_of(m));
            proof {
                suffix = seq![digit_char(m as nat)] + suffix;
                assert(rev@ =~= suffix.reverse());
                assert(decimal(m as nat) == seq![digit_char(m as nat)]);
                assert(decimal(n as nat) =~= suffix);
            }
            break;
        }
        rev.push(digit_of(m % 10));
        proof {
            assert(decimal(m as nat) == decimal((m / 10) as nat).push(digit_char((m % 10) as nat)));
            suffix = seq![digit_char((m % 10) as nat)] + suffix;
            assert(rev@ =~= suffix.reverse());
            assert(decimal(n as nat) =~= decimal((m / 10) as nat) + suffix);
        }
        m = m / 10;
    }
    let mut v: Vec<char> = Vec::new();
    let mut i = rev.len();
    while i > 0
        invariant
            i <= rev@.len(),
            rev@ == suffix.reverse(),
            v@ == suffix.take(rev@.len() - i),
            decimal(n as nat) == suffix,
        decreases i,
    {
        i = i - 1;
        v.push(rev[i]);
        proof {
            assert(suffix.take(rev@.len() - i) =~= suffix.take(rev@.len() - i - 1).push(rev@[i as int]));
        }
    }
    proof {
        assert(suffix.take(rev@.len() as int) =~= suffix);
    }
    v
}

/// Cells of the gutter on the row showing document row `doc_row`, as
/// `(column, char)` pairs in paint order: the 1-based number plus
/// `line_offset`, right-aligned in `width - 1` columns and cut to them,
/// then a spacer at column `width - 1` (column 0 when `width` is 0).
pub open spec fn gutter_cells_spec(doc_row: nat, line_offset: nat, width: u16) -> Seq<(usize, char)> {
    let nw: int = if width > 0 { width - 1 } else { 0 };
    let label = right_aligned(doc_row + 1 + line_offset, nw);
    let shown = if label.len() < nw { label.len() as int } else { nw };
    Seq::new(shown as nat, |i: int| (i as usize, label[i])).push((nw as usize, ' '))
}

/// What the gutter shows for document row `doc_row` (see
/// [`gutter_cells_spec`]).
pub fn gutter_cells(doc_row: usize, line_offset: usize, width: u16) -> (cells: Vec<(usize, char)>)
    requires
        doc_row + 1 + line_offset <= usize::MAX,
    ensures
        cells@ == gutter_cells_spec(doc_row as nat, line_offset as nat, width),
{
    let nw: usize = if width > 0 { (width - 1) as usize } else { 0 };
    let digits = decimal_chars(doc_row + 1 + line_offset);
    let ghost label = right_aligned((doc_row + 1 + line_offset) as nat, nw as int);
    let pad: usize = if digits.len() < nw { nw - digits.len() } else { 0 };
    let total: usize = if digits.len() < nw { nw } else { digits.len() };
    let mut cells: Vec<(usize, char)> = Vec::new();
    let mut i: usize = 0;
    // Spaces first, then digits, stopping at `nw` columns.
    while i < nw && i < total
        invariant
            label == spaces(pad as int) + digits@,
            i <= nw,
            i <= total,
            total == pad + digits@.len(),
            pad <= nw,
            cells@ == Seq::new(i as nat, |k: int| (k as usize, label[k])),
        decreases nw - i,
    {
        let ch = if i < pad { ' ' } else { digits[i - pad] };
        proof {
            assert(label[i as int] == ch);
        }
        cells.push((i, ch));
        i = i + 1;
        proof {
            assert(cells@ =~= Seq::new(i as nat, |k: int| (k as usize, label[k])));
        }
    }
    cells.push((nw, ' '));
    proof {
        assert(label.len() == pad + digits@.len());
        assert(cells@ =~= gutter_cells_spec(doc_row as nat, line_offset as nat, width));
    }
    cells
}

/// Text of the marker row that stands for a closed fold whose first row
/// is `first_line` and which spans `count` rows: `▸ {count} lines folded`
/// when the first row is blank, else `▸ {text}  ({count} lines)` with the
/// row's trimmed text cut to 59 chars plus `…` when it is longer than 60.
pub open spec fn fold_label(first_line: Seq<char>, count: nat) -> Seq<char> {
    let prefix = trim(first_line);
    if prefix.len() == 0 {
        seq!['\u{25B8}', ' '] + decimal(count) + seq![' ', 'l', 'i', 'n', 'e', 's', ' ', 'f', 'o', 'l', 'd', 'e', 'd']
    } else {
        let shown = if prefix.len() > 60 { prefix.take(59).push('\u{2026}') } else { prefix };
        seq!['\u{25B8}', ' '] + shown + seq![' ', ' ', '('] + decimal(count) + seq![' ', 'l', 'i', 'n', 'e', 's', ')']
    }
}

/// Cells of a char run painted from column 0 of a `limit`-column row:
/// each char goes at the current column while the column is inside the
/// row and the char's width fits; the column then advances by that width.
pub open spec fn run_cells(label: Seq<char>, i: int, x: nat, limit: nat) -> Seq<(usize, char)>
    decreases label.len() - i,
{
    if i < 0 || i >= label.len() || x >= limit || x + cell_width(label[i]) > limit {
        Seq::empty()
    } else {
        seq![(x as usize, label[i])] + run_cells(label, i + 1, x + cell_width(label[i]), limit)
    }
}

fn extend_chars(v: &mut Vec<char>, s: &[char])
    ensures
        final(v)@ == old(v)@ + s@,
{
    let mut i: usize = 0;
    while i < s.len()
        invariant
            i <= s@.len(),
            v@ == old(v)@ + s@.take(i as int),
        decreases s@.len() - i,
    {
        v.push(s[i]);
        i = i + 1;
        proof {
            assert(s@.take(i as int) =~= s@.take(i - 1).push(s@[i - 1]));
        }
    }
    proof {
        assert(s@.take(s@.len() as int) =~= s@);
    }
}

/// The label of a closed fold's marker row (see [`fold_label`]).
pub fn fold_marker_label(first_line: &str, count: usize) -> (label: Vec<char>)
    ensures
        label@ == fold_label(first_line@, count as nat),
{
    let chars = chars_of(first_line);
    let (a, b) = crate::motion::trim_bounds(&chars, 0, chars.len());
    proof {
        assert(chars@.subrange(0, chars@.len() as int) =~= first_line@);
    }
    let mut label: Vec<char> = Vec::new();
    label.push('\u{25B8}');
    label.push(' ');
    if a == b {
        let digits = decimal_chars(count);
        extend_chars(&mut label, digits.as_slice());
        let tail = [' ', 'l', 'i', 'n', 'e', 's', ' ', 'f', 'o', 'l', 'd', 'e', 'd'];
        extend_chars(&mut label, &tail);
        proof {
            assert(label@ =~= fold_label(first_line@, count as nat));
        }
        return label;
    }
    let ghost prefix = chars@.subrange(a as int, b as int);
    if b - a > 60 {
        let mut k = a;
        while k < a + 59
            invariant
                a + 59 <= b <= chars@.len(),
                a <= k <= a + 59,
                label@ == seq!['\u{25B8}', ' '] + chars@.subrange(a as int, k as int),
            decreases a + 59 - k,
        {
            label.push(chars[k]);
            k = k + 1;
            proof {
                assert(chars@.subrange(a as int, k as int) =~= chars@.subrange(a as int, k - 1).push(chars@[k - 1]));
            }
        }
        label.push('\u{2026}');
        proof {
            assert(chars@.subrange(a as int, a + 59) =~= prefix.take(59));
        }
    } else {
        let mut k = a;
        while k < b
            invariant
                b <= chars@.len(),
                a <= k <= b,
                label@ == seq!['\u{25B8}', ' '] + chars@.subrange(a as int, k as int),
            decreases b - k,
        {
            label.push(chars[k]);
            k = k + 1;
            proof {
                assert(chars@.subrange(a as int, k as int) =~= chars@.subrange(a as int, k - 1).push(chars@[k - 1]));
            }
        }
    }
    let ghost shown = if prefix.len() > 60 { prefix.take(59).push('\u{2026}') } else { prefix };
    assert(label@ =~= seq!['\u{25B8}', ' '] + shown);
    let mid = [' ', ' ', '('];
    extend_chars(&mut label, &mid);
    let digits = decimal_chars(count);
    extend_chars(&mut label, digits.as_slice());
    let tail = [' ', 'l', 'i', 'n', 'e', 's', ')'];
    extend_chars(&mut label, &tail);
    proof {
        assert(label@ =~= fold_label(first_line@, count as nat));
    }
    label
}

/// Where the chars of `label` land on a `limit`-column row (see
/// [`run_cells`]).
pub fn place_run(label: &Vec<char>, limit: usize) -> (cells: Vec<(usize, char)>)
    ensures
        cells@ == run_cells(label@, 0, 0, limit as nat),
{
    let mut cells: Vec<(usize, char)> = Vec::new();
    let mut x: usize = 0;
    let mut i: usize = 0;
    let mut stop = false;
    while !stop && i < label.len()
        invariant
            i <= label@.len(),
            x <= limit,
            cells@ + run_cells(label@, i as int, x as nat, limit as nat) == run_cells(label@, 0, 0, limit as nat),
            stop ==> run_cells(label@, i as int, x as nat, limit as nat) == Seq::<(usize, char)>::empty(),
        decreases label@.len() - i, (if stop { 0int } else { 1int }),
    {
        if x >= limit {
            stop = true;
        } else {
            let w = cell_width_of(label[i]);
            if w > limit - x {
                stop = true;
            } else {
                proof {
                    assert(run_cells(label@, i as int, x as nat, limit as nat) == seq![(x as usize, label@[i as int])]
                        + run_cells(label@, i + 1, (x + w) as nat, limit as nat));
                }
                cells.push((x, label[i]));
                proof {
                    assert(cells@ + run_cells(label@, i + 1, (x + w) as nat, limit as nat) =~= run_cells(label@, 0, 0, limit as nat));
                }
                x = x + w;
                i = i + 1;
            }
        }
    }
    proof {
        assert(run_cells(label@, i as int, x as nat, limit as nat) =~= Seq::<(usize, char)>::empty());
        assert(cells@ + Seq::<(usize, char)>::empty() =~= cells@);
    }
    cells
}

/// The style layers of one painted cell, composed over the default style
/// in field order: the cursor-line background, the syntax style that the
/// host resolves from a span's style id, the selection background, the
/// search background and the cursor style.
#[derive(Debug, Clone, Copy, PartialEq, Eq)]
pub struct CellStyle {
    pub cursor_line: bool,
    pub syntax: Option<u32>,
    pub selection: bool,
    pub search: bool,
    pub cursor: bool,
}

/// Which style a paint operation applies.
#[derive(Debug, Clone, Copy, PartialEq, Eq)]
pub enum PaintStyle {
    /// Layers over the default style (text area cells, fold markers).
    Text(CellStyle),
    /// The gutter's style.
    Gutter,
    /// The style of the sign at this index of the view's sign list.
    Sign(usize),
    /// The cursor-column background, patched over what the cell has.
    CursorColumn,
}

/// One write into the cell at column `x`, row `y` of an area: set the
/// char when there is one, then apply the style.
#[derive(Debug, Clone, Copy, PartialEq, Eq)]
pub struct PaintOp {
    pub x: usize,
    pub y: usize,
    pub ch: Option<char>,
    pub style: PaintStyle,
}

/// Columns a tab expands to: up to the next multiple of four.
pub const TAB_WIDTH: usize = 4;

/// What one screen row of a document row needs besides the text: the
/// document row, the screen row `y` and the text area's width, the cursor, the char range
/// `[seg_start, seg_end)` this screen row shows (for a wrapped row, one
/// segment; unwrapped, from the horizontal scroll on), whether it is the
/// row's last segment, whether the cursor-line and search backgrounds are
/// set, and the selected char columns of the row (inclusive).
#[derive(Debug, Clone, Copy)]
pub struct RowLayout {
    pub doc_row: usize,
    pub y: usize,
    pub width: usize,
    pub is_cursor_row: bool,
    pub cursor_col: usize,
    pub seg_start: usize,
    pub seg_end: usize,
    pub is_last_segment: bool,
    pub cursor_line_enabled: bool,
    pub search_enabled: bool,
    pub selection: Option<(usize, usize)>,
}

/// The style id of the span that styles byte `b`, if any.
pub open spec fn span_style_at(spans: Seq<Span>, b: int) -> Option<u32> {
    if exists|i: int| is_first_covering_span(spans, b, i) {
        Some(spans[choose|i: int| is_first_covering_span(spans, b, i)].style)
    } else {
        None
    }
}

proof fn lemma_first_covering_unique(spans: Seq<Span>, b: int, i: int, k: int)
    requires
        is_first_covering_span(spans, b, i),
        is_first_covering_span(spans, b, k),
    ensures
        i == k,
{
    if i < k {
        assert(spans[i].covers(b));
    } else if k < i {
        assert(spans[k].covers(b));
    }
}

/// Whether char column `c` lies in one of the search ranges.
pub open spec fn in_search(search: Seq<(usize, usize)>, c: int) -> bool {
    exists|k: int| 0 <= k < search.len() && search[k].0 <= c < (#[trigger] search[k]).1
}

/// Layers of a text cell at char column `c`, byte `b`.
pub open spec fn text_style(ctx: RowLayout, spans: Seq<Span>, search: Seq<(usize, usize)>, c: int, b: int) -> CellStyle {
    CellStyle {
        cursor_line: ctx.is_cursor_row,
        syntax: span_style_at(spans, b),
        selection: match ctx.selection {
            Some((lo, hi)) => lo <= c && c <= hi,
            None => false,
        },
        search: ctx.search_enabled && in_search(search, c),
        cursor: ctx.is_cursor_row && c == ctx.cursor_col,
    }
}

/// Layers of a concealed range's replacement cells: cursor line and
/// syntax only.
pub open spec fn conceal_style(ctx: RowLayout, spans: Seq<Span>, b: int) -> CellStyle {
    CellStyle { cursor_line: ctx.is_cursor_row, syntax: span_style_at(spans, b), selection: false, search: false, cursor: false }
}

/// Whether conceal `c` applies to byte `b` of document row `row`.
pub open spec fn conceal_starts(c: Conceal, row: int, b: int) -> bool {
    c.row == row && c.start_byte == b
}

/// Index of the first conceal of document row `row` that starts at byte
/// `b`. (Taking the row's conceals sorted by start byte, with ties in
/// their given order, picks the same one.)
pub open spec fn conceal_at(conceals: Seq<Conceal>, row: int, b: int) -> Option<int> {
    if exists|k: int| 0 <= k < conceals.len() && conceal_starts(conceals[k], row, b) {
        Some(choose|k: int| 0 <= k < conceals.len() && conceal_starts(conceals[k], row, b)
            && forall|j: int| 0 <= j < k ==> !conceal_starts(conceals[j], row, b))
    } else {
        None
    }
}

/// Where a conceal's skipped range ends: chars from `j` on are consumed
/// while the byte offset is below `end`. Gives the next char index and its
/// byte offset.
pub open spec fn skip_end(line: Seq<char>, j: int, bt: int, end: int) -> (int, int)
    decreases line.len() - j,
{
    if j >= 0 && j < line.len() && bt < end {
        skip_end(line, j + 1, bt + crate::text::utf8_len(line[j]), end)
    } else {
        (j, bt)
    }
}

proof fn lemma_skip_end_bounds(line: Seq<char>, j: int, bt: int, end: int)
    requires
        0 <= j <= line.len(),
    ensures
        j <= skip_end(line, j, bt, end).0 <= line.len(),
        skip_end(line, j, bt, end).1 == bt + crate::text::byte_offset_of(line, skip_end(line, j, bt, end).0)
            - crate::text::byte_offset_of(line, j),
    decreases line.len() - j,
{
    if j < line.len() && bt < end {
        crate::text::lemma_byte_offset_step(line, j);
        lemma_skip_end_bounds(line, j + 1, bt + crate::text::utf8_len(line[j]), end);
    }
}

/// Cells of a conceal's replacement text, painted from column `sx` while
/// each char fits before column `limit`.
pub open spec fn rep_ops(rep: Seq<char>, k: int, sx: int, limit: int, y: usize, style: CellStyle) -> Seq<PaintOp>
    decreases rep.len() - k,
{
    if k < 0 || k >= rep.len() || sx + cell_width(rep[k]) > limit {
        Seq::empty()
    } else {
        seq![PaintOp { x: sx as usize, y, ch: Some(rep[k]), style: PaintStyle::Text(style) }]
            + rep_ops(rep, k + 1, sx + cell_width(rep[k]), limit, y, style)
    }
}

/// The column after a conceal's replacement text.
pub open spec fn rep_end(rep: Seq<char>, k: int, sx: int, limit: int) -> int
    decreases rep.len() - k,
{
    if k < 0 || k >= rep.len() || sx + cell_width(rep[k]) > limit {
        sx
    } else {
        rep_end(rep, k + 1, sx + cell_width(rep[k]), limit)
    }
}

/// Columns char `ch` takes at visible line column `col`: tabs reach the
/// next tab stop, other chars take their cell width.
pub open spec fn visible_width(ch: char, col: int) -> nat {
    if ch == '\t' {
        (TAB_WIDTH - col % (TAB_WIDTH as int)) as nat
    } else {
        cell_width(ch)
    }
}

/// The cells of the text run of one screen row from char `i` on, with `b`
/// its byte offset, `col` the visible column of the line reached so far
/// and `sx` the screen column. A conceal of the row that starts at the
/// current byte paints its replacement (when the char is inside the
/// segment) and hides the chars whose byte offsets lie in
/// `[start_byte, end_byte)`; an empty or reversed range hides nothing, so
/// the char at `start_byte` is then painted after the replacement. Every
/// other char goes through [`char_ops`]. Painting stops at `seg_end`.
pub open spec fn walk_ops(
    ctx: RowLayout,
    line: Seq<char>,
    spans: Seq<Span>,
    search: Seq<(usize, usize)>,
    conceals: Seq<Conceal>,
    i: int,
    b: int,
    col: int,
    sx: int,
) -> Seq<PaintOp>
    decreases line.len() - i, 1int,
{
    if i < 0 || i >= line.len() || i >= ctx.seg_end {
        Seq::empty()
    } else {
        match conceal_at(conceals, ctx.doc_row as int, b) {
            Some(k) => {
                let style = conceal_style(ctx, spans, b);
                let rep = conceals[k].replacement@;
                let painted = if i >= ctx.seg_start { rep_ops(rep, 0, sx, ctx.width as int, ctx.y, style) } else { Seq::empty() };
                let nx = if i >= ctx.seg_start { rep_end(rep, 0, sx, ctx.width as int) } else { sx };
                if conceals[k].end_byte > b {
                    let next = skip_end(line, i, b, conceals[k].end_byte as int);
                    if next.0 > i && next.0 <= line.len() {
                        painted + walk_ops(ctx, line, spans, search, conceals, next.0, next.1, col, nx)
                    } else {
                        painted
                    }
                } else {
                    painted + char_ops(ctx, line, spans, search, conceals, i, b, col, nx)
                }
            },
            None => char_ops(ctx, line, spans, search, conceals, i, b, col, sx),
        }
    }
}

/// The cells of char `i` (at byte `b`, visible column `col`, screen column
/// `sx`) and of the rest of the run after it: a char before `seg_start`
/// only advances the offsets; a tab paints spaces up to the next tab stop;
/// any other char paints itself; painting stops at the first char that
/// does not fit.
pub open spec fn char_ops(
    ctx: RowLayout,
    line: Seq<char>,
    spans: Seq<Span>,
    search: Seq<(usize, usize)>,
    conceals: Seq<Conceal>,
    i: int,
    b: int,
    col: int,
    sx: int,
) -> Seq<PaintOp>
    decreases line.len() - i, 0int,
{
    if i < 0 || i >= line.len() {
        Seq::empty()
    } else {
        let vw = visible_width(line[i], col);
        let nb = b + crate::text::utf8_len(line[i]);
        if i < ctx.seg_start {
            walk_ops(ctx, line, spans, search, conceals, i + 1, nb, col + vw, sx)
        } else if sx + vw > ctx.width {
            Seq::empty()
        } else {
            char_cells(ctx, spans, search, line[i], i, b, vw, sx)
                + walk_ops(ctx, line, spans, search, conceals, i + 1, nb, col + vw, sx + vw)
        }
    }
}

/// The cells that char `ch` (index `i`, byte `b`) paints at screen column
/// `sx` when it takes `vw` columns: a tab paints `vw` spaces, any other
/// char one cell; all carry the layers of [`text_style`].
pub open spec fn char_cells(
    ctx: RowLayout,
    spans: Seq<Span>,
    search: Seq<(usize, usize)>,
    ch: char,
    i: int,
    b: int,
    vw: nat,
    sx: int,
) -> Seq<PaintOp> {
    let style = PaintStyle::Text(text_style(ctx, spans, search, i, b));
    if ch == '\t' {
        Seq::new(vw, |k: int| PaintOp { x: (sx + k) as usize, y: ctx.y, ch: Some(' '), style })
    } else {
        seq![PaintOp { x: sx as usize, y: ctx.y, ch: Some(ch), style }]
    }
}

/// The cursor-line background across the whole screen row, when the row
/// holds the cursor and that background is set.
pub open spec fn fill_ops(ctx: RowLayout) -> Seq<PaintOp> {
    if ctx.is_cursor_row && ctx.cursor_line_enabled {
        Seq::new(ctx.width as nat, |x: int| PaintOp {
            x: x as usize,
            y: ctx.y,
            ch: None,
            style: PaintStyle::Text(CellStyle { cursor_line: true, syntax: None, selection: false, search: false, cursor: false }),
        })
    } else {
        Seq::empty()
    }
}

/// The placeholder cell of a cursor past the end of the line, on the last
/// segment of the cursor's row (the offset is taken as a `u16` column).
pub open spec fn eol_ops(ctx: RowLayout, n: int) -> Seq<PaintOp> {
    let pad = ((ctx.cursor_col - ctx.seg_start) as u16) as int;
    if ctx.is_cursor_row && ctx.is_last_segment && ctx.cursor_col >= n && ctx.cursor_col >= ctx.seg_start
        && pad < ctx.width {
        seq![PaintOp {
            x: pad as usize,
            y: ctx.y,
            ch: Some(' '),
            style: PaintStyle::Text(CellStyle { cursor_line: true, syntax: None, selection: false, search: false, cursor: true }),
        }]
    } else {
        Seq::empty()
    }
}

/// All paint operations of one screen row, in order.
pub open spec fn row_ops(
    ctx: RowLayout,
    line: Seq<char>,
    spans: Seq<Span>,
    search: Seq<(usize, usize)>,
    conceals: Seq<Conceal>,
) -> Seq<PaintOp> {
    fill_ops(ctx) + walk_ops(ctx, line, spans, search, conceals, 0, 0, 0, 0) + eol_ops(ctx, line.len() as int)
}

/// The style id of the span that styles byte `b` (see [`span_style_at`]).
pub fn span_style(row_spans: &[Span], b: usize) -> (r: Option<u32>)
    ensures
        r == span_style_at(row_spans@, b as int),
{
    match first_covering_span(row_spans, b) {
        Some(i) => {
            proof {
                let k = choose|k: int| is_first_covering_span(row_spans@, b as int, k);
                lemma_first_covering_unique(row_spans@, b as int, i as int, k);
            }
            Some(row_spans[i].style)
        },
        None => {
            proof {
                if exists|k: int| is_first_covering_span(row_spans@, b as int, k) {
                    let k = choose|k: int| is_first_covering_span(row_spans@, b as int, k);
                    assert(row_spans@[k].covers(b as int));
                }
            }
            None
        },
    }
}

pub(crate) fn search_hit(search: &Vec<(usize, usize)>, c: usize) -> (r: bool)
    ensures
        r == in_search(search@, c as int),
{
    let mut k: usize = 0;
    while k < search.len()
        invariant
            k <= search@.len(),
            forall|j: int| 0 <= j < k ==> !(search@[j].0 <= c && c < (#[trigger] search@[j]).1),
        decreases search@.len() - k,
    {
        let (lo, hi) = search[k];
        if lo <= c && c < hi {
            return true;
        }
        k = k + 1;
    }
    false
}

fn find_conceal(conceals: &[Conceal], row: usize, b: usize) -> (r: Option<usize>)
    ensures
        r matches Some(k) ==> conceal_at(conceals@, row as int, b as int) == Some(k as int) && k < conceals@.len(),
        r is None ==> conceal_at(conceals@, row as int, b as int) is None,
{
    let mut k: usize = 0;
    while k < conceals.len()
        invariant
            k <= conceals@.len(),
            forall|j: int| 0 <= j < k ==> !conceal_starts(#[trigger] conceals@[j], row as int, b as int),
        decreases conceals@.len() - k,
    {
        if conceals[k].row == row && conceals[k].start_byte == b {
            proof {
                let w = choose|w: int| 0 <= w < conceals@.len() && conceal_starts(conceals@[w], row as int, b as int)
                    && forall|j: int| 0 <= j < w ==> !conceal_starts(conceals@[j], row as int, b as int);
                assert(0 <= k < conceals@.len() && conceal_starts(conceals@[k as int], row as int, b as int)
                    && forall|j: int| 0 <= j < k ==> !conceal_starts(conceals@[j], row as int, b as int));
                if w < k {
                    assert(!conceal_starts(conceals@[w], row as int, b as int));
                } else if w > k {
                    assert(!conceal_starts(conceals@[k as int], row as int, b as int));
                }
            }
            return Some(k);
        }
        k = k + 1;
    }
    None
}

proof fn lemma_walk_conceal(
    cx: RowLayout,
    line: Seq<char>,
    spans: Seq<Span>,
    search: Seq<(usize, usize)>,
    cs: Seq<Conceal>,
    i: int,
    b: int,
    col: int,
    sx: int,
    k: int,
)
    requires
        0 <= i < line.len(),
        i < cx.seg_end,
        conceal_at(cs, cx.doc_row as int, b) == Some(k),
    ensures
        ({
            let style = conceal_style(cx, spans, b);
            let rep = cs[k].replacement@;
            let painted = if i >= cx.seg_start { rep_ops(rep, 0, sx, cx.width as int, cx.y, style) } else { Seq::empty() };
            let nx = if i >= cx.seg_start { rep_end(rep, 0, sx, cx.width as int) } else { sx };
            let next = skip_end(line, i, b, cs[k].end_byte as int);
            &&& cs[k].end_byte > b ==> i < next.0 <= line.len()
            &&& cs[k].end_byte > b ==> walk_ops(cx, line, spans, search, cs, i, b, col, sx)
                == painted + walk_ops(cx, line, spans, search, cs, next.0, next.1, col, nx)
            &&& cs[k].end_byte <= b ==> walk_ops(cx, line, spans, search, cs, i, b, col, sx)
                == painted + char_ops(cx, line, spans, search, cs, i, b, col, nx)
        }),
{
    lemma_skip_end_bounds(line, i + 1, b + crate::text::utf8_len(line[i]), cs[k].end_byte as int);
}

/// One char's step of a row: a char before the segment only advances the
/// offsets; a char that does not fit stops the row; otherwise the char's
/// cells (a tab's spaces up to the next multiple of four columns, any
/// other char one cell) come first, at the current column, with the
/// layers of [`text_style`], and the rest of the row follows `vw` columns
/// further right.
pub proof fn lemma_char_ops_step(
    cx: RowLayout,
    line: Seq<char>,
    spans: Seq<Span>,
    search: Seq<(usize, usize)>,
    cs: Seq<Conceal>,
    i: int,
    b: int,
    col: int,
    sx: int,
)
    requires
        0 <= i < line.len(),
    ensures
        ({
            let vw = visible_width(line[i], col);
            let nb = b + crate::text::utf8_len(line[i]);
            let w = char_ops(cx, line, spans, search, cs, i, b, col, sx);
            &&& line[i] == '\t' ==> vw == 4 - col % 4
            &&& i < cx.seg_start ==> w == walk_ops(cx, line, spans, search, cs, i + 1, nb, col + vw, sx)
            &&& (i >= cx.seg_start && sx + vw > cx.width) ==> w == Seq::<PaintOp>::empty()
            &&& (i >= cx.seg_start && sx + vw <= cx.width) ==> w == char_cells(cx, spans, search, line[i], i, b, vw, sx)
                + walk_ops(cx, line, spans, search, cs, i + 1, nb, col + vw, sx + vw)
        }),
{
}

/// Paints a conceal's replacement from column `sx`; gives the column after it.
fn paint_replacement(ops: &mut Vec<PaintOp>, rep_text: &String, sx: usize, width: usize, y: usize, style: CellStyle) -> (nx: usize)
    requires
        sx <= width,
    ensures
        final(ops)@ == old(ops)@ + rep_ops(rep_text@, 0, sx as int, width as int, y, style),
        nx == rep_end(rep_text@, 0, sx as int, width as int),
        sx <= nx <= width,
{
    let ghost rep = rep_text@;
    let ghost ops0 = ops@;
    let rchars = chars_of(rep_text.as_str());
    let mut x = sx;
    let mut r: usize = 0;
    let mut rstop = false;
    while !rstop && r < rchars.len()
        invariant
            rchars@ == rep,
            r <= rep.len(),
            sx <= x <= width,
            ops@ + rep_ops(rep, r as int, x as int, width as int, y, style)
                == ops0 + rep_ops(rep, 0, sx as int, width as int, y, style),
            rep_end(rep, r as int, x as int, width as int) == rep_end(rep, 0, sx as int, width as int),
            rstop ==> rep_ops(rep, r as int, x as int, width as int, y, style) == Seq::<PaintOp>::empty(),
            rstop ==> rep_end(rep, r as int, x as int, width as int) == x,
        decreases rep.len() - r, (if rstop { 0int } else { 1int }),
    {
        let rch = rchars[r];
        let rw = cell_width_of(rch);
        if rw > width - x {
            rstop = true;
        } else {
            ops.push(PaintOp { x, y, ch: Some(rch), style: PaintStyle::Text(style) });
            proof {
                assert(ops@ + rep_ops(rep, r + 1, x + rw, width as int, y, style)
                    =~= ops0 + rep_ops(rep, 0, sx as int, width as int, y, style));
            }
            x = x + rw;
            r = r + 1;
        }
    }
    proof {
        assert(rep_ops(rep, r as int, x as int, width as int, y, style) =~= Seq::<PaintOp>::empty());
        assert(ops@ =~= ops0 + rep_ops(rep, 0, sx as int, width as int, y, style));
    }
    x
}

/// Consumes the chars of a concealed range: from char `j` at byte `bt`,
/// while the byte offset is below `end`.
fn skip_concealed(chars: &Vec<char>, j: usize, bt: usize, end: usize) -> (r: (usize, usize))
    requires
        j <= chars@.len(),
        crate::text::byte_len(chars@) <= usize::MAX,
        bt == crate::text::byte_offset_of(chars@, j as int),
    ensures
        r.0 as int == skip_end(chars@, j as int, bt as int, end as int).0,
        r.1 as int == skip_end(chars@, j as int, bt as int, end as int).1,
        r.1 == crate::text::byte_offset_of(chars@, r.0 as int),
        j <= r.0 <= chars@.len(),
{
    let n = chars.len();
    let mut j2 = j;
    let mut bt2 = bt;
    while bt2 < end && j2 < n
        invariant
            n == chars@.len(),
            j <= j2 <= n,
            crate::text::byte_len(chars@) <= usize::MAX,
            bt2 == crate::text::byte_offset_of(chars@, j2 as int),
            skip_end(chars@, j2 as int, bt2 as int, end as int) == skip_end(chars@, j as int, bt as int, end as int),
        decreases n - j2,
    {
        proof {
            crate::text::lemma_byte_offset_step(chars@, j2 as int);
            crate::text::lemma_byte_offset_full(chars@);
            if j2 + 1 < n {
                crate::text::lemma_byte_offset_strictly_increasing(chars@, j2 + 1, n as int);
            }
        }
        bt2 = bt2 + crate::text::utf8_width(chars[j2]);
        j2 = j2 + 1;
    }
    (j2, bt2)
}

/// Pushes the cells of one text char (a tab expands to spaces).
fn paint_text_char(ops: &mut Vec<PaintOp>, ch: char, vw: usize, sx: usize, y: usize, style: PaintStyle)
    requires
        sx + vw <= usize::MAX,
    ensures
        final(ops)@ == old(ops)@ + (if ch == '\t' {
            Seq::new(vw as nat, |q: int| PaintOp { x: (sx + q) as usize, y, ch: Some(' '), style })
        } else {
            seq![PaintOp { x: sx, y, ch: Some(ch), style }]
        }),
{
    let ghost ops0 = ops@;
    if ch == '\t' {
        let mut k: usize = 0;
        while k < vw
            invariant
                k <= vw,
                sx + vw <= usize::MAX,
                ops@ == ops0 + Seq::new(k as nat, |q: int| PaintOp { x: (sx + q) as usize, y, ch: Some(' '), style }),
            decreases vw - k,
        {
            ops.push(PaintOp { x: sx + k, y, ch: Some(' '), style });
            k = k + 1;
            proof {
                assert(ops@ =~= ops0 + Seq::new(k as nat, |q: int| PaintOp { x: (sx + q) as usize, y, ch: Some(' '), style }));
            }
        }
    } else {
        ops.push(PaintOp { x: sx, y, ch: Some(ch), style });
    }
}

/// One char's step of a row (see [`char_ops`]): gives the next char index,
/// byte offset, visible column modulo the tab width and screen column, or
/// reports that the row stops here.
fn char_step(
    ops: &mut Vec<PaintOp>,
    ctx: &RowLayout,
    chars: &Vec<char>,
    row_spans: &[Span],
    search_ranges: &Vec<(usize, usize)>,
    Ghost(cs): Ghost<Seq<Conceal>>,
    i: usize,
    b: usize,
    col4: usize,
    Ghost(col): Ghost<int>,
    sx: usize,
) -> (r: (usize, usize, usize, usize, bool))
    requires
        i < chars@.len(),
        crate::text::byte_len(chars@) <= usize::MAX,
        b == crate::text::byte_offset_of(chars@, i as int),
        col >= 0,
        col4 == col % (TAB_WIDTH as int),
        sx <= ctx.width,
    ensures
        ({
            let vw = visible_width(chars@[i as int], col);
            let target = char_ops(*ctx, chars@, row_spans@, search_ranges@, cs, i as int, b as int, col, sx as int);
            &&& r.4 ==> final(ops)@ == old(ops)@ + target
            &&& !r.4 ==> {
                &&& r.0 == i + 1
                &&& r.1 == crate::text::byte_offset_of(chars@, i + 1)
                &&& r.2 == (col + vw) % (TAB_WIDTH as int)
                &&& r.3 <= ctx.width
                &&& final(ops)@ + walk_ops(*ctx, chars@, row_spans@, search_ranges@, cs, i + 1, r.1 as int, col + vw, r.3 as int)
                    == old(ops)@ + target
            }
        }),
{
    let ghost cx = *ctx;
    let ghost line = chars@;
    let ghost spans = row_spans@;
    let ghost search = search_ranges@;
    let n = chars.len();
    let ch = chars[i];
    let chlen = crate::text::utf8_width(ch);
    proof {
        crate::text::lemma_byte_offset_step(line, i as int);
        crate::text::lemma_byte_offset_full(line);
        if i + 1 < n {
            crate::text::lemma_byte_offset_strictly_increasing(line, i + 1, n as int);
        }
        lemma_char_ops_step(cx, line, spans, search, cs, i as int, b as int, col, sx as int);
    }
    let vw: usize = if ch == '\t' { TAB_WIDTH - col4 } else { cell_width_of(ch) };
    assert(vw == visible_width(ch, col));
    if i < ctx.seg_start {
        proof {
            assert(ops@ =~= ops@ + Seq::<PaintOp>::empty());
        }
        return (i + 1, b + chlen, (col4 + vw) % TAB_WIDTH, sx, false);
    }
    if vw > ctx.width - sx {
        proof {
            assert(ops@ =~= old(ops)@ + Seq::<PaintOp>::empty());
        }
        return (i, b, col4, sx, true);
    }
    let sel = match ctx.selection {
        Some((lo, hi)) => lo <= i && i <= hi,
        None => false,
    };
    let hit = ctx.search_enabled && search_hit(search_ranges, i);
    let style = PaintStyle::Text(CellStyle {
        cursor_line: ctx.is_cursor_row,
        syntax: span_style(row_spans, b),
        selection: sel,
        search: hit,
        cursor: ctx.is_cursor_row && i == ctx.cursor_col,
    });
    assert(style == PaintStyle::Text(text_style(cx, spans, search, i as int, b as int)));
    paint_text_char(ops, ch, vw, sx, ctx.y, style);
    proof {
        assert(ops@ + walk_ops(cx, line, spans, search, cs, i + 1, b + chlen, col + vw, sx + vw)
            =~= old(ops)@ + char_ops(cx, line, spans, search, cs, i as int, b as int, col, sx as int));
    }
    (i + 1, b + chlen, (col4 + vw) % TAB_WIDTH, sx + vw, false)
}

/// Paint operations of one screen row of a document row (see
/// [`row_ops`]): the cursor-line background, the text cells with their
/// style layers, conceal replacements, tab expansion, and the past-the-end
/// cursor placeholder. `conceals` may hold conceals of any row; those of
/// `ctx.doc_row` apply. `search_ranges` are the row's match columns.
#[verifier::spinoff_prover]
#[verifier::rlimit(60)]
pub fn layout_row(
    ctx: &RowLayout,
    line: &str,
    row_spans: &[Span],
    search_ranges: &Vec<(usize, usize)>,
    conceals: &[Conceal],
) -> (ops: Vec<PaintOp>)
    requires
        crate::text::byte_len(line@) <= usize::MAX,
    ensures
        ops@ == row_ops(*ctx, line@, row_spans@, search_ranges@, conceals@),
{
    let ghost cx = *ctx;
    let ghost spans = row_spans@;
    let ghost search = search_ranges@;
    let ghost cs = conceals@;
    let chars = chars_of(line);
    let n = chars.len();
    let mut ops: Vec<PaintOp> = Vec::new();
    if ctx.is_cursor_row && ctx.cursor_line_enabled {
        let mut x: usize = 0;
        while x < ctx.width
            invariant
                x <= ctx.width,
                ops@ == fill_ops(cx).take(x as int),
                ctx.is_cursor_row && ctx.cursor_line_enabled,
                cx == *ctx,
            decreases ctx.width - x,
        {
            ops.push(PaintOp {
                x,
                y: ctx.y,
                ch: None,
                style: PaintStyle::Text(CellStyle { cursor_line: true, syntax: None, selection: false, search: false, cursor: false }),
            });
            x = x + 1;
            proof {
                assert(ops@ =~= fill_ops(cx).take(x as int));
            }
        }
        proof {
            assert(fill_ops(cx).take(x as int) =~= fill_ops(cx));
        }
    }
    let ghost start_ops = ops@;
    assert(start_ops =~= fill_ops(cx));
    let mut i: usize = 0;
    let mut b: usize = 0;
    let mut col4: usize = 0;
    let ghost mut col: int = 0;
    let mut sx: usize = 0;
    let mut stop = false;
    proof {
        assert(line@.take(0) =~= Seq::<char>::empty());
        assert(crate::text::byte_offset_of(line@, 0) == 0) by {
            assert(vstd::utf8::encode_utf8(Seq::<char>::empty()) =~= Seq::<u8>::empty());
        }
    }
    while !stop && i < n && i < ctx.seg_end
        invariant
            cx == *ctx,
            spans == row_spans@,
            search == search_ranges@,
            cs == conceals@,
            chars@ == line@,
            n == chars@.len(),
            crate::text::byte_len(line@) <= usize::MAX,
            i <= n,
            b == crate::text::byte_offset_of(line@, i as int),
            col >= 0,
            col4 == col % (TAB_WIDTH as int),
            sx <= ctx.width,
            !stop ==> ops@ + walk_ops(cx, line@, spans, search, cs, i as int, b as int, col, sx as int)
                == start_ops + walk_ops(cx, line@, spans, search, cs, 0, 0, 0, 0),
            stop ==> ops@ == start_ops + walk_ops(cx, line@, spans, search, cs, 0, 0, 0, 0),
        decreases n - i, (if stop { 0int } else { 1int }),
    {
        let ghost ops0 = ops@;
        match find_conceal(conceals, ctx.doc_row, b) {
            Some(k) => {
                proof {
                    lemma_walk_conceal(cx, line@, spans, search, cs, i as int, b as int, col, sx as int, k as int);
                }
                let style = CellStyle {
                    cursor_line: ctx.is_cursor_row,
                    syntax: span_style(row_spans, b),
                    selection: false,
                    search: false,
                    cursor: false,
                };
                let ghost sx0 = sx as int;
                if i >= ctx.seg_start {
                    sx = paint_replacement(&mut ops, &conceals[k].replacement, sx, ctx.width, ctx.y, style);
                }
                proof {
                    assert(ops@ =~= ops0 + (if i >= cx.seg_start {
                        rep_ops(cs[k as int].replacement@, 0, sx0, cx.width as int, cx.y, style)
                    } else {
                        Seq::<PaintOp>::empty()
                    }));
                }
                if conceals[k].end_byte > b {
                    let (j, bt) = skip_concealed(&chars, i, b, conceals[k].end_byte);
                    i = j;
                    b = bt;
                } else {
                    let (i2, b2, c2, s2, st) = char_step(
                        &mut ops, ctx, &chars, row_spans, search_ranges, Ghost(cs), i, b, col4, Ghost(col), sx);
                    if st {
                        stop = true;
                    } else {
                        proof {
                            col = col + visible_width(line@[i as int], col);
                        }
                        i = i2;
                        b = b2;
                        col4 = c2;
                        sx = s2;
                    }
                }
            },
            None => {
                let (i2, b2, c2, s2, st) = char_step(
                    &mut ops, ctx, &chars, row_spans, search_ranges, Ghost(cs), i, b, col4, Ghost(col), sx);
                if st {
                    stop = true;
                } else {
                    proof {
                        col = col + visible_width(line@[i as int], col);
                    }
                    i = i2;
                    b = b2;
                    col4 = c2;
                    sx = s2;
                }
            },
        }
    }
    proof {
        if !stop {
            assert(walk_ops(cx, line@, spans, search, cs, i as int, b as int, col, sx as int) =~= Seq::<PaintOp>::empty());
            assert(ops@ =~= start_ops + walk_ops(cx, line@, spans, search, cs, 0, 0, 0, 0));
        }
    }
    if ctx.is_cursor_row && ctx.is_last_segment && ctx.cursor_col >= n && ctx.cursor_col >= ctx.seg_start {
        let pad = ((ctx.cursor_col - ctx.seg_start) as u16) as usize;
        if pad < ctx.width {
            ops.push(PaintOp {
                x: pad,
                y: ctx.y,
                ch: Some(' '),
                style: PaintStyle::Text(CellStyle { cursor_line: true, syntax: None, selection: false, search: false, cursor: true }),
            });
        }
    }
    proof {
        assert(ops@ =~= row_ops(cx, line@, spans, search, cs));
    }
    ops
}

/// Every cell of a run lies inside the row.
pub proof fn lemma_run_cells_bound(label: Seq<char>, i: int, x: nat, limit: nat)
    ensures
        forall|k: int| 0 <= k < run_cells(label, i, x, limit).len() ==> (#[trigger] run_cells(label, i, x, limit)[k]).0 < limit,
    decreases label.len() - i,
{
    if !(i < 0 || i >= label.len() || x >= limit || x + cell_width(label[i]) > limit) {
        lemma_run_cells_bound(label, i + 1, x + cell_width(label[i]), limit);
        let r = run_cells(label, i, x, limit);
        let t = run_cells(label, i + 1, x + cell_width(label[i]), limit);
        assert forall|k: int| 0 <= k < r.len() implies (#[trigger] r[k]).0 < limit by {
            if k > 0 {
                assert(r[k] == t[k - 1]);
            }
        };
    }
}

/// The cells of a row run from char `i` on, painted from screen column
/// `sx`, when every char is one column wide and nothing is concealed:
/// char `i + k` lands in column `sx + k` with the layers of
/// [`text_style`], up to the segment's end, the line's end or the width.
pub open spec fn simple_cells(
    ctx: RowLayout,
    line: Seq<char>,
    spans: Seq<Span>,
    search: Seq<(usize, usize)>,
    i: int,
    sx: int,
) -> Seq<PaintOp> {
    let end = if (ctx.seg_end as int) < line.len() { ctx.seg_end as int } else { line.len() as int };
    let room = ctx.width - sx;
    let m = if i < end { if end - i < room { end - i } else { room } } else { 0 };
    Seq::new(if m > 0 { m as nat } else { 0 }, |k: int| PaintOp {
        x: (sx + k) as usize,
        y: ctx.y,
        ch: Some(line[i + k]),
        style: PaintStyle::Text(text_style(ctx, spans, search, i + k, crate::text::byte_offset_of(line, i + k) as int)),
    })
}

/// The row's chars are all one column wide, none is a tab, and no conceal
/// belongs to the row.
pub open spec fn plain_row(ctx: RowLayout, line: Seq<char>, conceals: Seq<Conceal>) -> bool {
    &&& forall|j: int| 0 <= j < line.len() ==> #[trigger] line[j] != '\t' && cell_width(line[j]) == 1
    &&& forall|k: int| 0 <= k < conceals.len() ==> (#[trigger] conceals[k]).row != ctx.doc_row
}

proof fn lemma_no_conceal(ctx: RowLayout, conceals: Seq<Conceal>, b: int)
    requires
        forall|k: int| 0 <= k < conceals.len() ==> (#[trigger] conceals[k]).row != ctx.doc_row,
    ensures
        conceal_at(conceals, ctx.doc_row as int, b) is None,
{
    if exists|k: int| 0 <= k < conceals.len() && conceal_starts(conceals[k], ctx.doc_row as int, b) {
        let k = choose|k: int| 0 <= k < conceals.len() && conceal_starts(conceals[k], ctx.doc_row as int, b);
        assert(conceals[k].row != ctx.doc_row);
    }
}

proof fn lemma_simple_walk(
    ctx: RowLayout,
    line: Seq<char>,
    spans: Seq<Span>,
    search: Seq<(usize, usize)>,
    conceals: Seq<Conceal>,
    i: int,
    col: int,
    sx: int,
)
    requires
        ctx.seg_start <= i <= line.len(),
        0 <= sx <= ctx.width,
        plain_row(ctx, line, conceals),
    ensures
        walk_ops(ctx, line, spans, search, conceals, i, crate::text::byte_offset_of(line, i) as int, col, sx)
            == simple_cells(ctx, line, spans, search, i, sx),
    decreases line.len() - i,
{
    let b = crate::text::byte_offset_of(line, i) as int;
    if i >= line.len() || i >= ctx.seg_end {
        assert(simple_cells(ctx, line, spans, search, i, sx) =~= Seq::<PaintOp>::empty());
    } else {
        lemma_no_conceal(ctx, conceals, b);
        lemma_char_ops_step(ctx, line, spans, search, conceals, i, b, col, sx);
        crate::text::lemma_byte_offset_step(line, i);
        assert(line[i] != '\t' && cell_width(line[i]) == 1);
        if sx + 1 > ctx.width {
            assert(simple_cells(ctx, line, spans, search, i, sx) =~= Seq::<PaintOp>::empty());
        } else {
            lemma_simple_walk(ctx, line, spans, search, conceals, i + 1, col + 1, sx + 1);
            assert(simple_cells(ctx, line, spans, search, i, sx)
                =~= char_cells(ctx, spans, search, line[i], i, b, 1, sx) + simple_cells(ctx, line, spans, search, i + 1, sx + 1));
        }
    }
}

proof fn lemma_skip_to_segment(
    ctx: RowLayout,
    line: Seq<char>,
    spans: Seq<Span>,
    search: Seq<(usize, usize)>,
    conceals: Seq<Conceal>,
    i: int,
    col: int,
)
    requires
        0 <= i <= line.len(),
        i <= ctx.seg_start,
        plain_row(ctx, line, conceals),
    ensures
        walk_ops(ctx, line, spans, search, conceals, i, crate::text::byte_offset_of(line, i) as int, col, 0)
            == simple_cells(ctx, line, spans, search, ctx.seg_start as int, 0),
    decreases line.len() - i,
{
    let b = crate::text::byte_offset_of(line, i) as int;
    if i == ctx.seg_start {
        lemma_simple_walk(ctx, line, spans, search, conceals, i, col, 0);
    } else if i >= line.len() || i >= ctx.seg_end {
        assert(simple_cells(ctx, line, spans, search, ctx.seg_start as int, 0) =~= Seq::<PaintOp>::empty());
    } else {
        lemma_no_conceal(ctx, conceals, b);
        lemma_char_ops_step(ctx, line, spans, search, conceals, i, b, col, 0);
        crate::text::lemma_byte_offset_step(line, i);
        lemma_skip_to_segment(ctx, line, spans, search, conceals, i + 1, col + visible_width(line[i], col));
    }
}

/// On a row whose chars are all one column wide, without tabs and without
/// conceals, the text cells are exactly: char `seg_start + k` in column
/// `k`, carrying the layers of [`text_style`] (cursor line, first covering
/// span, selection, search, cursor), for every `k` below both the
/// segment's visible length and the row's width; chars outside the
/// segment are not painted.
pub proof fn lemma_plain_row_cells(
    ctx: RowLayout,
    line: Seq<char>,
    spans: Seq<Span>,
    search: Seq<(usize, usize)>,
    conceals: Seq<Conceal>,
)
    requires
        plain_row(ctx, line, conceals),
    ensures
        walk_ops(ctx, line, spans, search, conceals, 0, 0, 0, 0) == simple_cells(ctx, line, spans, search, ctx.seg_start as int, 0),
{
    assert(line.take(0) =~= Seq::<char>::empty());
    assert(vstd::utf8::encode_utf8(Seq::<char>::empty()) =~= Seq::<u8>::empty());
    assert(crate::text::byte_offset_of(line, 0) == 0);
    lemma_skip_to_segment(ctx, line, spans, search, conceals, 0, 0);
}

/// A paint operation lies inside a row of `width` columns: left of the
/// right edge, or a zero-width char standing on the edge itself.
pub open spec fn op_in_columns(op: PaintOp, width: int) -> bool {
    op.x < width || (op.x == width && op.ch is Some && cell_width(op.ch->0) == 0)
}

/// Every operation of `ops` is on screen row `y` and inside a row of
/// `width` columns.
pub open spec fn ops_in_row(ops: Seq<PaintOp>, y: usize, width: int) -> bool {
    forall|k: int| 0 <= k < ops.len() ==> (#[trigger] ops[k]).y == y && op_in_columns(ops[k], width)
}

pub proof fn lemma_ops_in_row_add(a: Seq<PaintOp>, b: Seq<PaintOp>, y: usize, width: int)
    requires
        ops_in_row(a, y, width),
        ops_in_row(b, y, width),
    ensures
        ops_in_row(a + b, y, width),
{
    assert forall|k: int| 0 <= k < (a + b).len() implies (#[trigger] (a + b)[k]).y == y && op_in_columns((a + b)[k], width) by {
        if k < a.len() {
            assert((a + b)[k] == a[k]);
        } else {
            assert((a + b)[k] == b[k - a.len()]);
        }
    };
}

proof fn lemma_rep_inside(rep: Seq<char>, k: int, sx: int, limit: int, y: usize, style: CellStyle)
    requires
        0 <= sx <= limit,
    ensures
        ops_in_row(rep_ops(rep, k, sx, limit, y, style), y, limit),
        sx <= rep_end(rep, k, sx, limit) <= limit,
    decreases rep.len() - k,
{
    if !(k < 0 || k >= rep.len() || sx + cell_width(rep[k]) > limit) {
        let nx = sx + cell_width(rep[k]);
        lemma_rep_inside(rep, k + 1, nx, limit, y, style);
        let head = seq![PaintOp { x: sx as usize, y, ch: Some(rep[k]), style: PaintStyle::Text(style) }];
        assert(op_in_columns(head[0], limit));
        lemma_ops_in_row_add(head, rep_ops(rep, k + 1, nx, limit, y, style), y, limit);
    }
}

proof fn lemma_walk_inside(
    ctx: RowLayout,
    line: Seq<char>,
    spans: Seq<Span>,
    search: Seq<(usize, usize)>,
    conceals: Seq<Conceal>,
    i: int,
    b: int,
    col: int,
    sx: int,
)
    requires
        0 <= sx <= ctx.width,
    ensures
        ops_in_row(walk_ops(ctx, line, spans, search, conceals, i, b, col, sx), ctx.y, ctx.width as int),
    decreases line.len() - i, 1int,
{
    if !(i < 0 || i >= line.len() || i >= ctx.seg_end) {
        match conceal_at(conceals, ctx.doc_row as int, b) {
            Some(k) => {
                let style = conceal_style(ctx, spans, b);
                let rep = conceals[k].replacement@;
                let w = ctx.width as int;
                let painted = if i >= ctx.seg_start { rep_ops(rep, 0, sx, w, ctx.y, style) } else { Seq::empty() };
                let nx = if i >= ctx.seg_start { rep_end(rep, 0, sx, w) } else { sx };
                lemma_rep_inside(rep, 0, sx, w, ctx.y, style);
                if conceals[k].end_byte > b {
                    let next = skip_end(line, i, b, conceals[k].end_byte as int);
                    if next.0 > i && next.0 <= line.len() {
                        lemma_walk_inside(ctx, line, spans, search, conceals, next.0, next.1, col, nx);
                        lemma_ops_in_row_add(painted, walk_ops(ctx, line, spans, search, conceals, next.0, next.1, col, nx), ctx.y, w);
                    }
                } else {
                    lemma_char_inside(ctx, line, spans, search, conceals, i, b, col, nx);
                    lemma_ops_in_row_add(painted, char_ops(ctx, line, spans, search, conceals, i, b, col, nx), ctx.y, w);
                }
            },
            None => {
                lemma_char_inside(ctx, line, spans, search, conceals, i, b, col, sx);
            },
        }
    }
}

proof fn lemma_char_inside(
    ctx: RowLayout,
    line: Seq<char>,
    spans: Seq<Span>,
    search: Seq<(usize, usize)>,
    conceals: Seq<Conceal>,
    i: int,
    b: int,
    col: int,
    sx: int,
)
    requires
        0 <= sx <= ctx.width,
    ensures
        ops_in_row(char_ops(ctx, line, spans, search, conceals, i, b, col, sx), ctx.y, ctx.width as int),
    decreases line.len() - i, 0int,
{
    if !(i < 0 || i >= line.len()) {
        let vw = visible_width(line[i], col);
        let nb = b + crate::text::utf8_len(line[i]);
        let w = ctx.width as int;
        if i < ctx.seg_start {
            lemma_walk_inside(ctx, line, spans, search, conceals, i + 1, nb, col + vw, sx);
        } else if sx + vw <= ctx.width {
            let cells = char_cells(ctx, spans, search, line[i], i, b, vw, sx);
            assert(ops_in_row(cells, ctx.y, w)) by {
                if line[i] == '\t' {
                    assert(vw >= 1);
                }
            };
            lemma_walk_inside(ctx, line, spans, search, conceals, i + 1, nb, col + vw, sx + vw);
            lemma_ops_in_row_add(cells, walk_ops(ctx, line, spans, search, conceals, i + 1, nb, col + vw, sx + vw), ctx.y, w);
        }
    }
}

/// Every paint operation of a screen row stays on that row and inside its
/// width; only a zero-width char can stand on the right edge itself.
pub proof fn lemma_row_ops_inside(
    ctx: RowLayout,
    line: Seq<char>,
    spans: Seq<Span>,
    search: Seq<(usize, usize)>,
    conceals: Seq<Conceal>,
)
    ensures
        ops_in_row(row_ops(ctx, line, spans, search, conceals), ctx.y, ctx.width as int),
{
    let w = ctx.width as int;
    lemma_walk_inside(ctx, line, spans, search, conceals, 0, 0, 0, 0);
    lemma_ops_in_row_add(fill_ops(ctx), walk_ops(ctx, line, spans, search, conceals, 0, 0, 0, 0), ctx.y, w);
    lemma_ops_in_row_add(
        fill_ops(ctx) + walk_ops(ctx, line, spans, search, conceals, 0, 0, 0, 0),
        eol_ops(ctx, line.len() as int),
        ctx.y,
        w,
    );
}

/// A sequence of paint operations that ends with `x + c` also ends with `c`.
pub proof fn lemma_suffix_drop(w: Seq<PaintOp>, x: Seq<PaintOp>, c: Seq<PaintOp>)
    requires
        (x + c).is_suffix_of(w),
    ensures
        c.is_suffix_of(w),
{
    let a = x + c;
    let base = w.len() - a.len();
    assert forall|t: int| 0 <= t < c.len() implies c[t] == w.subrange(w.len() - c.len(), w.len() as int)[t] by {
        assert(a[x.len() + t] == c[t]);
        assert(w.subrange(base, w.len() as int)[x.len() + t] == a[x.len() + t]);
    };
    assert(c =~= w.subrange(w.len() - c.len(), w.len() as int));
}

/// The visible column of the line reached before char `i`: each earlier
/// tab advances to the next multiple of four, every other char by its
/// cell width.
pub open spec fn line_col(line: Seq<char>, i: int) -> int
    decreases i,
{
    if i <= 0 {
        0
    } else {
        line_col(line, i - 1) + visible_width(line[i - 1], line_col(line, i - 1))
    }
}

/// The screen column, within the row, at which char `i` of the segment
/// is painted when nothing before it is concealed: its visible column
/// less that of the segment's first char (0 up to the segment's start).
pub open spec fn seg_col(ctx: RowLayout, line: Seq<char>, i: int) -> int {
    if i <= ctx.seg_start { 0 } else { line_col(line, i) - line_col(line, ctx.seg_start as int) }
}

/// No conceal of the row starts at the byte offset of any char before `i`.
pub open spec fn unconcealed_before(ctx: RowLayout, line: Seq<char>, conceals: Seq<Conceal>, i: int) -> bool {
    forall|m: int| 0 <= m < i ==> conceal_at(conceals, ctx.doc_row as int, #[trigger] crate::text::byte_offset_of(line, m) as int) is None
}

proof fn lemma_line_col_mono(line: Seq<char>, i: int, j: int)
    requires
        i <= j,
    ensures
        line_col(line, i) <= line_col(line, j),
    decreases j - i,
{
    if i < j {
        lemma_line_col_mono(line, i, j - 1);
    }
}

/// When no conceal of the row starts before char `i` and the chars of the
/// segment up to `i` fit in the row, the row's text run reaches char `i`
/// at its byte offset, its visible column and the screen column
/// [`seg_col`]: the run ends with the run from there.
pub proof fn lemma_walk_reaches(
    ctx: RowLayout,
    line: Seq<char>,
    spans: Seq<Span>,
    search: Seq<(usize, usize)>,
    conceals: Seq<Conceal>,
    i: int,
)
    requires
        0 <= i <= line.len(),
        i <= ctx.seg_end,
        unconcealed_before(ctx, line, conceals, i),
        seg_col(ctx, line, i) <= ctx.width,
    ensures
        walk_ops(ctx, line, spans, search, conceals, i, crate::text::byte_offset_of(line, i) as int, line_col(line, i), seg_col(ctx, line, i))
            .is_suffix_of(walk_ops(ctx, line, spans, search, conceals, 0, 0, 0, 0)),
    decreases i,
{
    let w = walk_ops(ctx, line, spans, search, conceals, 0, 0, 0, 0);
    if i == 0 {
        assert(line.take(0) =~= Seq::<char>::empty());
        assert(vstd::utf8::encode_utf8(Seq::<char>::empty()) =~= Seq::<u8>::empty());
        assert(crate::text::byte_offset_of(line, 0) == 0);
        assert(w =~= w.subrange(0, w.len() as int));
    } else {
        let m = i - 1;
        if m >= ctx.seg_start {
            lemma_line_col_mono(line, ctx.seg_start as int, m);
        }
        lemma_line_col_mono(line, m, i);
        lemma_walk_reaches(ctx, line, spans, search, conceals, m);
        crate::text::lemma_byte_offset_step(line, m);
        let b = crate::text::byte_offset_of(line, m) as int;
        assert(conceal_at(conceals, ctx.doc_row as int, b) is None);
        let col = line_col(line, m);
        let sx = seg_col(ctx, line, m);
        let next = walk_ops(ctx, line, spans, search, conceals, i, crate::text::byte_offset_of(line, i) as int, line_col(line, i), seg_col(ctx, line, i));
        assert(line_col(line, i) == col + visible_width(line[m], col));
        assert(crate::text::byte_offset_of(line, i) as int == b + crate::text::utf8_len(line[m]));
        assert(walk_ops(ctx, line, spans, search, conceals, m, b, col, sx) == char_ops(ctx, line, spans, search, conceals, m, b, col, sx));
        if m < ctx.seg_start {
            assert(sx == 0 && seg_col(ctx, line, i) == 0);
            assert(char_ops(ctx, line, spans, search, conceals, m, b, col, sx) == next);
            assert(next =~= Seq::<PaintOp>::empty() + next);
            lemma_suffix_drop(w, Seq::<PaintOp>::empty(), next);
        } else {
            let cells = char_cells(ctx, spans, search, line[m], m, b, visible_width(line[m], col), sx);
            assert(walk_ops(ctx, line, spans, search, conceals, m, b, col, sx) == cells + next);
            lemma_suffix_drop(w, cells, next);
        }
    }
}

/// A char of the segment (not concealed, nothing before it concealed)
/// that fits in the row paints its cells at screen column [`seg_col`]:
/// a tab fills the `4 - lc % 4` columns up to the next tab stop with
/// spaces, any other char one cell holding itself; every cell carries
/// the layers of [`text_style`] for the char's column and byte (cursor
/// line, first covering span, selection, search, cursor). The next char
/// follows right after those columns.
pub proof fn lemma_row_char_cells(
    ctx: RowLayout,
    line: Seq<char>,
    spans: Seq<Span>,
    search: Seq<(usize, usize)>,
    conceals: Seq<Conceal>,
    i: int,
)
    requires
        0 <= i < line.len(),
        ctx.seg_start <= i < ctx.seg_end,
        unconcealed_before(ctx, line, conceals, i + 1),
        seg_col(ctx, line, i + 1) <= ctx.width,
    ensures
        ({
            let lc = line_col(line, i);
            let vw = visible_width(line[i], lc);
            let sx = seg_col(ctx, line, i);
            let b = crate::text::byte_offset_of(line, i) as int;
            &&& line_col(line, i + 1) == lc + vw
            &&& seg_col(ctx, line, i + 1) == sx + vw
            &&& line[i] == '\t' ==> vw == TAB_WIDTH - lc % (TAB_WIDTH as int)
            &&& (char_cells(ctx, spans, search, line[i], i, b, vw, sx) + walk_ops(
                ctx,
                line,
                spans,
                search,
                conceals,
                i + 1,
                crate::text::byte_offset_of(line, i + 1) as int,
                lc + vw,
                sx + vw,
            )).is_suffix_of(walk_ops(ctx, line, spans, search, conceals, 0, 0, 0, 0))
        }),
{
    lemma_line_col_mono(line, ctx.seg_start as int, i);
    lemma_line_col_mono(line, i, i + 1);
    lemma_walk_reaches(ctx, line, spans, search, conceals, i);
    crate::text::lemma_byte_offset_step(line, i);
    let b = crate::text::byte_offset_of(line, i) as int;
    assert(conceal_at(conceals, ctx.doc_row as int, b) is None);
    let lc = line_col(line, i);
    let vw = visible_width(line[i], lc);
    let sx = seg_col(ctx, line, i);
    assert(line_col(line, i + 1) == lc + vw);
    assert(seg_col(ctx, line, i + 1) == sx + vw);
    let next = walk_ops(ctx, line, spans, search, conceals, i + 1, crate::text::byte_offset_of(line, i + 1) as int, lc + vw, sx + vw);
    assert(walk_ops(ctx, line, spans, search, conceals, i, b, lc, sx) == char_ops(ctx, line, spans, search, conceals, i, b, lc, sx));
    assert(char_ops(ctx, line, spans, search, conceals, i, b, lc, sx) == char_cells(ctx, spans, search, line[i], i, b, vw, sx) + next);
}

proof fn lemma_skip_end_hides(line: Seq<char>, j: int, end: int)
    requires
        0 <= j <= line.len(),
    ensures
        ({
            let r = skip_end(line, j, crate::text::byte_offset_of(line, j) as int, end);
            &&& j <= r.0 <= line.len()
            &&& r.1 == crate::text::byte_offset_of(line, r.0)
            &&& forall|m: int| j <= m < r.0 ==> #[trigger] crate::text::byte_offset_of(line, m) < end
            &&& r.0 < line.len() ==> r.1 >= end
        }),
    decreases line.len() - j,
{
    let bt = crate::text::byte_offset_of(line, j) as int;
    if j < line.len() && bt < end {
        crate::text::lemma_byte_offset_step(line, j);
        lemma_skip_end_hides(line, j + 1, end);
    }
}

/// A conceal of the row that starts at the byte of char `i` of the
/// segment (nothing before it concealed, the chars before it fitting):
/// its replacement is painted from the screen column char `i` would
/// take, in the cursor-line and span layers of that byte. When its range
/// `[start_byte, end_byte)` is not empty, exactly the chars whose byte
/// offsets lie in that range are hidden (chars `i..j`) and the run goes on
/// with char `j` right after the replacement, the visible column left
/// where it was; when the range is empty or reversed, nothing is hidden
/// and char `i` itself follows the replacement.
pub proof fn lemma_row_conceal(
    ctx: RowLayout,
    line: Seq<char>,
    spans: Seq<Span>,
    search: Seq<(usize, usize)>,
    conceals: Seq<Conceal>,
    i: int,
)
    requires
        0 <= i < line.len(),
        ctx.seg_start <= i < ctx.seg_end,
        unconcealed_before(ctx, line, conceals, i),
        seg_col(ctx, line, i) <= ctx.width,
        conceal_at(conceals, ctx.doc_row as int, crate::text::byte_offset_of(line, i) as int) is Some,
    ensures
        ({
            let b = crate::text::byte_offset_of(line, i) as int;
            let c = conceals[conceal_at(conceals, ctx.doc_row as int, b)->0];
            let rep = c.replacement@;
            let sx = seg_col(ctx, line, i);
            let lc = line_col(line, i);
            let painted = rep_ops(rep, 0, sx, ctx.width as int, ctx.y, conceal_style(ctx, spans, b));
            let nx = rep_end(rep, 0, sx, ctx.width as int);
            let r = skip_end(line, i, b, c.end_byte as int);
            &&& c.row == ctx.doc_row && c.start_byte == b
            &&& forall|t: int| 0 <= t < painted.len() ==> {
                let op = #[trigger] painted[t];
                &&& op.y == ctx.y
                &&& op.ch is Some
                &&& op.style matches PaintStyle::Text(st) && {
                    &&& st.cursor_line == ctx.is_cursor_row
                    &&& (st.syntax is None <==> forall|j: int| 0 <= j < spans.len() ==> !(spans[j].start_byte <= b
                        && b < spans[j].end_byte))
                    &&& forall|j: int| 0 <= j < spans.len() && spans[j].start_byte <= b && b < spans[j].end_byte
                        && (forall|m: int| 0 <= m < j ==> !(spans[m].start_byte <= b && b < spans[m].end_byte))
                        ==> st.syntax == Some(spans[j].style)
                    &&& !st.selection && !st.search && !st.cursor
                }
            }
            &&& c.end_byte > b ==> {
                &&& i < r.0 <= line.len()
                &&& r.1 == crate::text::byte_offset_of(line, r.0)
                &&& forall|m: int| 0 <= m < line.len() ==> (i <= m < r.0 <==> b <= #[trigger] crate::text::byte_offset_of(line, m) < c.end_byte)
                &&& (painted + walk_ops(ctx, line, spans, search, conceals, r.0, r.1, lc, nx)).is_suffix_of(
                    walk_ops(ctx, line, spans, search, conceals, 0, 0, 0, 0),
                )
            }
            &&& c.end_byte <= b ==> (painted + char_ops(ctx, line, spans, search, conceals, i, b, lc, nx)).is_suffix_of(
                walk_ops(ctx, line, spans, search, conceals, 0, 0, 0, 0),
            )
        }),
{
    let b = crate::text::byte_offset_of(line, i) as int;
    lemma_conceal_at_first(conceals, ctx.doc_row as int, b);
    let k = conceal_at(conceals, ctx.doc_row as int, b)->0;
    let c = conceals[k];
    let lc = line_col(line, i);
    let sx = seg_col(ctx, line, i);
    lemma_walk_reaches(ctx, line, spans, search, conceals, i);
    lemma_walk_conceal(ctx, line, spans, search, conceals, i, b, lc, sx, k);
    lemma_span_style_first(spans, b);
    lemma_rep_ops_style(c.replacement@, 0, sx, ctx.width as int, ctx.y, conceal_style(ctx, spans, b));
    let end = c.end_byte as int;
    if end > b {
        lemma_skip_end_hides(line, i, end);
        let r = skip_end(line, i, b, end);
        assert forall|m: int| 0 <= m < line.len() implies (i <= m < r.0 <==> b <= #[trigger] crate::text::byte_offset_of(line, m) < end) by {
            if m < i {
                crate::text::lemma_byte_offset_strictly_increasing(line, m, i);
            } else if m < r.0 {
                if m > i {
                    crate::text::lemma_byte_offset_strictly_increasing(line, i, m);
                }
            } else if m > r.0 {
                crate::text::lemma_byte_offset_strictly_increasing(line, r.0, m);
            }
        };
    }
}

proof fn lemma_first_conceal_from(cs: Seq<Conceal>, row: int, b: int, k: int)
    requires
        0 <= k < cs.len(),
        conceal_starts(cs[k], row, b),
    ensures
        exists|w: int| 0 <= w < cs.len() && conceal_starts(cs[w], row, b)
            && forall|j: int| 0 <= j < w ==> !conceal_starts(cs[j], row, b),
    decreases k,
{
    if exists|j: int| 0 <= j < k && conceal_starts(cs[j], row, b) {
        let j = choose|j: int| 0 <= j < k && conceal_starts(cs[j], row, b);
        lemma_first_conceal_from(cs, row, b, j);
    } else {
        assert(forall|j: int| 0 <= j < k ==> !conceal_starts(cs[j], row, b));
    }
}

/// [`conceal_at`] names the first conceal of the row that starts at the
/// byte.
proof fn lemma_conceal_at_first(cs: Seq<Conceal>, row: int, b: int)
    ensures
        conceal_at(cs, row, b) matches Some(k) ==> 0 <= k < cs.len() && conceal_starts(cs[k], row, b)
            && forall|j: int| 0 <= j < k ==> !conceal_starts(cs[j], row, b),
{
    if exists|k: int| 0 <= k < cs.len() && conceal_starts(cs[k], row, b) {
        let k = choose|k: int| 0 <= k < cs.len() && conceal_starts(cs[k], row, b);
        lemma_first_conceal_from(cs, row, b, k);
    }
}

/// What each cell of char `i` of the segment holds (nothing before it
/// concealed, the char fitting in the row): the cells are the run's next
/// ones, at consecutive screen columns from [`seg_col`]; a tab gives the
/// `4 - lc % 4` spaces up to the next tab stop, any other char one cell
/// holding itself. Every cell carries, for char index `i` and its UTF-8
/// byte offset `b`: the cursor line when the row holds the cursor; the
/// style of the first span, in slice order, whose byte range holds `b`
/// (none when no span does); the selection when `i` lies in the row's
/// selected columns; the search highlight when search is on and a match
/// range holds `i`; the cursor when `i` is the cursor's column.
pub proof fn lemma_row_cell_layers(
    ctx: RowLayout,
    line: Seq<char>,
    spans: Seq<Span>,
    search: Seq<(usize, usize)>,
    conceals: Seq<Conceal>,
    i: int,
)
    requires
        0 <= i < line.len(),
        ctx.seg_start <= i < ctx.seg_end,
        unconcealed_before(ctx, line, conceals, i + 1),
        seg_col(ctx, line, i + 1) <= ctx.width,
    ensures
        ({
            let lc = line_col(line, i);
            let sx = seg_col(ctx, line, i);
            let b = crate::text::byte_offset_of(line, i) as int;
            let adv: int = if line[i] == '\t' { 4 - lc % 4 } else { cell_width(line[i]) as int };
            let n: int = if line[i] == '\t' { adv } else { 1 };
            let w = walk_ops(ctx, line, spans, search, conceals, 0, 0, 0, 0);
            let rest = walk_ops(ctx, line, spans, search, conceals, i + 1, crate::text::byte_offset_of(line, i + 1) as int,
                line_col(line, i + 1), sx + adv);
            let p = w.len() - rest.len() - n;
            &&& seg_col(ctx, line, i + 1) == sx + adv
            &&& line_col(line, i + 1) == lc + adv
            &&& 0 <= p
            &&& w.subrange(p + n, w.len() as int) == rest
            &&& forall|k: int| 0 <= k < n ==> {
                let op = #[trigger] w[p + k];
                &&& op.x == sx + k
                &&& op.y == ctx.y
                &&& op.ch == Some(if line[i] == '\t' { ' ' } else { line[i] })
                &&& op.style matches PaintStyle::Text(st) && {
                    &&& st.cursor_line == ctx.is_cursor_row
                    &&& (st.syntax is None <==> forall|j: int| 0 <= j < spans.len() ==> !(spans[j].start_byte <= b
                        && b < spans[j].end_byte))
                    &&& forall|j: int| 0 <= j < spans.len() && spans[j].start_byte <= b && b < spans[j].end_byte
                        && (forall|m: int| 0 <= m < j ==> !(spans[m].start_byte <= b && b < spans[m].end_byte))
                        ==> st.syntax == Some(spans[j].style)
                    &&& st.selection == (ctx.selection matches Some((lo, hi)) && lo <= i && i <= hi)
                    &&& st.search == (ctx.search_enabled && exists|q: int| 0 <= q < search.len() && search[q].0 <= i
                        && i < search[q].1)
                    &&& st.cursor == (ctx.is_cursor_row && i == ctx.cursor_col)
                }
            }
        }),
{
    lemma_row_char_cells(ctx, line, spans, search, conceals, i);
    let lc = line_col(line, i);
    let sx = seg_col(ctx, line, i);
    let b = crate::text::byte_offset_of(line, i) as int;
    let vw = visible_width(line[i], lc);
    let cells = char_cells(ctx, spans, search, line[i], i, b, vw, sx);
    let rest = walk_ops(ctx, line, spans, search, conceals, i + 1, crate::text::byte_offset_of(line, i + 1) as int, lc + vw, sx + vw);
    let w = walk_ops(ctx, line, spans, search, conceals, 0, 0, 0, 0);
    let n: int = if line[i] == '\t' { vw as int } else { 1 };
    assert(cells.len() == n);
    lemma_line_col_mono(line, ctx.seg_start as int, i);
    assert(0 <= sx && sx + vw <= ctx.width);
    let p = w.len() - (cells + rest).len();
    assert(w.subrange(p, w.len() as int) == cells + rest);
    let st = text_style(ctx, spans, search, i, b);
    lemma_span_style_first(spans, b);
    assert forall|k: int| 0 <= k < n implies {
        let op = #[trigger] w[p + k];
        &&& op.x == sx + k
        &&& op.y == ctx.y
        &&& op.ch == Some(if line[i] == '\t' { ' ' } else { line[i] })
        &&& op.style == PaintStyle::Text(st)
    } by {
        assert(w[p + k] == w.subrange(p, w.len() as int)[k]);
        assert((cells + rest)[k] == cells[k]);
    };
    assert(w.subrange(p + n, w.len() as int) =~= rest) by {
        assert forall|t: int| 0 <= t < rest.len() implies w.subrange(p + n, w.len() as int)[t] == rest[t] by {
            assert(w.subrange(p, w.len() as int)[n + t] == (cells + rest)[n + t]);
        };
    };
}


/// [`span_style_at`] is the style of the first span, in slice order,
/// whose byte range holds `b`, and none when no span's range holds it.
pub proof fn lemma_span_style_first(spans: Seq<Span>, b: int)
    ensures
        span_style_at(spans, b) is None <==> forall|j: int| 0 <= j < spans.len() ==> !(spans[j].start_byte <= b
            && b < spans[j].end_byte),
        forall|j: int| 0 <= j < spans.len() && spans[j].start_byte <= b && b < spans[j].end_byte
            && (forall|m: int| 0 <= m < j ==> !(spans[m].start_byte <= b && b < spans[m].end_byte))
            ==> span_style_at(spans, b) == Some(#[trigger] spans[j].style),
{
    if span_style_at(spans, b) is None {
        assert forall|j: int| 0 <= j < spans.len() implies !(spans[j].start_byte <= b && b < spans[j].end_byte) by {
            if spans[j].start_byte <= b && b < spans[j].end_byte {
                lemma_first_covering_from(spans, b, j);
            }
        };
    } else {
        let j = choose|j: int| is_first_covering_span(spans, b, j);
        assert(spans[j].covers(b));
    }
    assert forall|j: int| 0 <= j < spans.len() && spans[j].start_byte <= b && b < spans[j].end_byte
        && (forall|m: int| 0 <= m < j ==> !(spans[m].start_byte <= b && b < spans[m].end_byte))
        implies span_style_at(spans, b) == Some(#[trigger] spans[j].style) by {
        assert(is_first_covering_span(spans, b, j));
        let k = choose|k: int| is_first_covering_span(spans, b, k);
        lemma_first_covering_unique(spans, b, j, k);
    };
}


proof fn lemma_rep_ops_style(rep: Seq<char>, k: int, sx: int, limit: int, y: usize, style: CellStyle)
    ensures
        forall|t: int| 0 <= t < rep_ops(rep, k, sx, limit, y, style).len() ==> {
            let op = #[trigger] rep_ops(rep, k, sx, limit, y, style)[t];
            op.y == y && op.ch is Some && op.style == PaintStyle::Text(style)
        },
    decreases rep.len() - k,
{
    if !(k < 0 || k >= rep.len() || sx + cell_width(rep[k]) > limit) {
        let nx = sx + cell_width(rep[k]);
        lemma_rep_ops_style(rep, k + 1, nx, limit, y, style);
        let r = rep_ops(rep, k, sx, limit, y, style);
        let t2 = rep_ops(rep, k + 1, nx, limit, y, style);
        assert forall|t: int| 0 <= t < r.len() implies {
            let op = #[trigger] r[t];
            op.y == y && op.ch is Some && op.style == PaintStyle::Text(style)
        } by {
            if t > 0 {
                assert(r[t] == t2[t - 1]);
            }
        };
    }
}

proof fn lemma_first_covering_from(spans: Seq<Span>, b: int, j: int)
    requires
        0 <= j < spans.len(),
        spans[j].covers(b),
    ensures
        exists|k: int| is_first_covering_span(spans, b, k),
    decreases j,
{
    if exists|m: int| 0 <= m < j && spans[m].covers(b) {
        let m = choose|m: int| 0 <= m < j && spans[m].covers(b);
        lemma_first_covering_from(spans, b, m);
    } else {
        assert(is_first_covering_span(spans, b, j));
    }
}

/// The marker label of a closed fold starts with "▸ ". When the first row
/// is blank, the count follows; otherwise the row's trimmed text follows
/// from its first char on: all of it when it has at most 60 chars, else
/// its first 59 chars and "…"; then "  (", the count, and " lines)".
pub proof fn lemma_fold_label_shows_line_start(first_line: Seq<char>, count: nat)
    ensures
        ({
            let p = crate::motion::trim(first_line);
            let l = fold_label(first_line, count);
            let d = decimal(count);
            let dn = d.len() as int;
            let pn = p.len() as int;
            &&& l[0] == '\u{25B8}' && l[1] == ' '
            &&& p.len() == 0 ==> l.subrange(2, 2 + dn) == d
                && l.subrange(2 + dn, l.len() as int) == seq![' ', 'l', 'i', 'n', 'e', 's', ' ', 'f', 'o', 'l', 'd', 'e', 'd']
            &&& 0 < p.len() <= 60 ==> l.subrange(2, 2 + pn) == p
                && l.subrange(2 + pn, 5 + pn) == seq![' ', ' ', '(']
                && l.subrange(5 + pn, 5 + pn + dn) == d
            &&& p.len() > 60 ==> l.subrange(2, 61) == p.take(59) && l[61] == '\u{2026}'
                && l.subrange(62, 65) == seq![' ', ' ', '(']
                && l.subrange(65, 65 + dn) == d
            &&& p.len() > 0 ==> l.subrange(l.len() - 7, l.len() as int) == seq![' ', 'l', 'i', 'n', 'e', 's', ')']
        }),
{
    let p = crate::motion::trim(first_line);
    let l = fold_label(first_line, count);
    let d = decimal(count);
    let dn = d.len() as int;
    let pn = p.len() as int;
    if p.len() == 0 {
        assert(l.subrange(2, 2 + dn) =~= d);
        assert(l.subrange(2 + dn, l.len() as int) =~= seq![' ', 'l', 'i', 'n', 'e', 's', ' ', 'f', 'o', 'l', 'd', 'e', 'd']);
    } else if p.len() <= 60 {
        assert(l.subrange(2, 2 + pn) =~= p);
        assert(l.subrange(2 + pn, 5 + pn) =~= seq![' ', ' ', '(']);
        assert(l.subrange(5 + pn, 5 + pn + dn) =~= d);
        assert(l.subrange(l.len() - 7, l.len() as int) =~= seq![' ', 'l', 'i', 'n', 'e', 's', ')']);
    } else {
        assert(l.subrange(2, 61) =~= p.take(59));
        assert(l.subrange(62, 65) =~= seq![' ', ' ', '(']);
        assert(l.subrange(65, 65 + dn) =~= d);
        assert(l.subrange(l.len() - 7, l.len() as int) =~= seq![' ', 'l', 'i', 'n', 'e', 's', ')']);
    }
}

} // verus!
