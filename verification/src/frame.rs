//! The walk over the document that decides, screen row by screen row,
//! what the view shows: hidden rows of closed folds are skipped, a closed
//! fold shows as one marker row, and every other row shows as one screen
//! row per wrap segment, until the area's height is used up.

use vstd::prelude::*;
use crate::render::Fold;
use crate::render::Viewport;
use crate::wrap::{Wrap, wrapped, wrap_segments, lemma_segments_tile_line};
use crate::position::Position;
use crate::search::{row_search_ranges, regex_find_bytes, match_columns};
use regex::Regex;
use crate::span::Span;
use crate::render::{
    CellStyle, Conceal, PaintOp, PaintStyle, RowLayout, Sign, is_winning_sign, winning_sign,
    gutter_cells_spec, gutter_cells, fold_label, fold_marker_label, run_cells, place_run, row_ops,
    layout_row, in_search, search_hit, op_in_columns, ops_in_row, lemma_ops_in_row_add,
    lemma_row_ops_inside, lemma_run_cells_bound, lemma_suffix_drop,
};

verus! {

/// What one screen row of the view shows.
#[derive(Debug, Clone, Copy, PartialEq, Eq)]
pub enum ScreenRow {
    /// The marker of the closed fold `fold` (an index into the folds),
    /// which starts at document row `doc_row`.
    Marker { doc_row: usize, fold: usize },
    /// Chars `[seg_start, seg_end)` of document row `doc_row`; `first`
    /// and `last` tell whether this is the row's first or last segment.
    Text { doc_row: usize, seg_start: usize, seg_end: usize, first: bool, last: bool },
}

/// Some closed fold hides document row `row`.
pub open spec fn any_hides(folds: Seq<Fold>, row: int) -> bool {
    exists|k: int| 0 <= k < folds.len() && (#[trigger] folds[k]).spec_hides(row)
}

/// A closed fold starting at document row `row`.
pub open spec fn fold_starts(f: Fold, row: int) -> bool {
    f.closed && f.start_row == row
}

/// The first closed fold that starts at document row `row`.
pub open spec fn marker_fold(folds: Seq<Fold>, row: int) -> Option<int> {
    if exists|k: int| 0 <= k < folds.len() && fold_starts(folds[k], row) {
        Some(choose|k: int| 0 <= k < folds.len() && fold_starts(folds[k], row)
            && forall|j: int| 0 <= j < k ==> !fold_starts(folds[j], row))
    } else {
        None
    }
}

/// The char ranges a document row shows as: one range from the
/// horizontal scroll on when not wrapping, else its wrap segments in
/// `seg_width` columns.
pub open spec fn row_segments(line: Seq<char>, vp: Viewport, seg_width: u16) -> Seq<(int, int)> {
    if vp.wrap == Wrap::Off {
        seq![(vp.top_col as int, usize::MAX as int)]
    } else {
        wrapped(line, seg_width, vp.wrap)
    }
}

/// The screen rows from document row `doc` and screen row `sr` on, in an
/// area `height` rows high.
#[verifier::opaque]
pub open spec fn plan_from(
    lines: Seq<String>,
    folds: Seq<Fold>,
    vp: Viewport,
    height: int,
    seg_width: u16,
    doc: int,
    sr: int,
) -> Seq<ScreenRow>
    decreases height - sr, lines.len() - doc,
{
    if doc < 0 || doc >= lines.len() || sr < 0 || sr >= height {
        Seq::empty()
    } else if any_hides(folds, doc) {
        plan_from(lines, folds, vp, height, seg_width, doc + 1, sr)
    } else {
        match marker_fold(folds, doc) {
            Some(k) => seq![ScreenRow::Marker { doc_row: doc as usize, fold: k as usize }] + plan_from(
                lines,
                folds,
                vp,
                height,
                seg_width,
                folds[k].end_row + 1,
                sr + 1,
            ),
            None => {
                let take = text_take(lines[doc]@, vp, seg_width, height - sr);
                if take >= 1 {
                    text_rows(lines[doc]@, vp, seg_width, doc, take)
                        + plan_from(lines, folds, vp, height, seg_width, doc + 1, sr + take)
                } else {
                    text_rows(lines[doc]@, vp, seg_width, doc, take)
                }
            },
        }
    }
}

/// How many screen rows document row `doc` gets with `room` rows left.
pub open spec fn text_take(line: Seq<char>, vp: Viewport, seg_width: u16, room: int) -> int {
    let n = row_segments(line, vp, seg_width).len();
    if n < room { n as int } else { room }
}

/// The first `take` screen rows of document row `doc`.
pub open spec fn text_rows(line: Seq<char>, vp: Viewport, seg_width: u16, doc: int, take: int) -> Seq<ScreenRow> {
    let segs = row_segments(line, vp, seg_width);
    Seq::new(take as nat, |k: int| ScreenRow::Text {
        doc_row: doc as usize,
        seg_start: segs[k].0 as usize,
        seg_end: segs[k].1 as usize,
        first: k == 0,
        last: k == segs.len() - 1,
    })
}

proof fn lemma_plan_step(
    lines: Seq<String>,
    folds: Seq<Fold>,
    vp: Viewport,
    height: int,
    seg_width: u16,
    doc: int,
    sr: int,
)
    requires
        0 <= doc < lines.len(),
        0 <= sr < height,
    ensures
        any_hides(folds, doc) ==> plan_from(lines, folds, vp, height, seg_width, doc, sr)
            == plan_from(lines, folds, vp, height, seg_width, doc + 1, sr),
        !any_hides(folds, doc) ==> (marker_fold(folds, doc) matches Some(k) ==> plan_from(lines, folds, vp, height, seg_width, doc, sr)
            == seq![ScreenRow::Marker { doc_row: doc as usize, fold: k as usize }] + plan_from(lines, folds, vp, height, seg_width, folds[k].end_row + 1, sr + 1)),
        !any_hides(folds, doc) && marker_fold(folds, doc) is None ==> plan_from(lines, folds, vp, height, seg_width, doc, sr)
            == text_rows(lines[doc]@, vp, seg_width, doc, text_take(lines[doc]@, vp, seg_width, height - sr))
                + plan_from(lines, folds, vp, height, seg_width, doc + 1, sr + text_take(lines[doc]@, vp, seg_width, height - sr)),
        1 <= text_take(lines[doc]@, vp, seg_width, height - sr) <= height - sr,
{
    reveal(plan_from);
    lemma_segments_tile_line(lines[doc]@, seg_width, vp.wrap);
}

proof fn lemma_plan_done(
    lines: Seq<String>,
    folds: Seq<Fold>,
    vp: Viewport,
    height: int,
    seg_width: u16,
    doc: int,
    sr: int,
)
    requires
        doc >= lines.len() || sr >= height,
    ensures
        plan_from(lines, folds, vp, height, seg_width, doc, sr) == Seq::<ScreenRow>::empty(),
{
    reveal(plan_from);
}

proof fn lemma_first_fold_exists(folds: Seq<Fold>, row: int, k: int)
    requires
        0 <= k < folds.len(),
        fold_starts(folds[k], row),
    ensures
        exists|m: int| 0 <= m < folds.len() && fold_starts(folds[m], row)
            && forall|j: int| 0 <= j < m ==> !fold_starts(folds[j], row),
    decreases k,
{
    if exists|j: int| 0 <= j < k && fold_starts(folds[j], row) {
        let j = choose|j: int| 0 <= j < k && fold_starts(folds[j], row);
        lemma_first_fold_exists(folds, row, j);
    } else {
        assert(forall|j: int| 0 <= j < k ==> !fold_starts(folds[j], row));
    }
}

/// The marker fold of a row is a closed fold that starts there.
pub proof fn lemma_marker_fold_in_range(folds: Seq<Fold>, row: int)
    ensures
        marker_fold(folds, row) matches Some(k) ==> 0 <= k < folds.len() && fold_starts(folds[k], row),
{
    if exists|k: int| 0 <= k < folds.len() && fold_starts(folds[k], row) {
        let k = choose|k: int| 0 <= k < folds.len() && fold_starts(folds[k], row);
        lemma_first_fold_exists(folds, row, k);
    }
}

fn hidden(folds: &[Fold], row: usize) -> (b: bool)
    ensures
        b == any_hides(folds@, row as int),
{
    let mut k: usize = 0;
    while k < folds.len()
        invariant
            k <= folds@.len(),
            forall|j: int| 0 <= j < k ==> !(#[trigger] folds@[j]).spec_hides(row as int),
        decreases folds@.len() - k,
    {
        if folds[k].hides(row) {
            return true;
        }
        k = k + 1;
    }
    false
}

fn find_marker_fold(folds: &[Fold], row: usize) -> (r: Option<usize>)
    ensures
        r matches Some(k) ==> marker_fold(folds@, row as int) == Some(k as int) && k < folds@.len(),
        r is None ==> marker_fold(folds@, row as int) is None,
{
    let mut k: usize = 0;
    while k < folds.len()
        invariant
            k <= folds@.len(),
            forall|j: int| 0 <= j < k ==> !fold_starts(#[trigger] folds@[j], row as int),
        decreases folds@.len() - k,
    {
        if folds[k].closed && folds[k].start_row == row {
            proof {
                let w = choose|w: int| 0 <= w < folds@.len() && fold_starts(folds@[w], row as int)
                    && forall|j: int| 0 <= j < w ==> !fold_starts(folds@[j], row as int);
                assert(0 <= k < folds@.len() && fold_starts(folds@[k as int], row as int)
                    && forall|j: int| 0 <= j < k ==> !fold_starts(folds@[j], row as int));
                if w < k {
                    assert(!fold_starts(folds@[w], row as int));
                } else if w > k {
                    assert(!fold_starts(folds@[k as int], row as int));
                }
            }
            return Some(k);
        }
        k = k + 1;
    }
    None
}

/// The ranges a document row shows as (see [`row_segments`]).
fn segments_of(line: &String, vp: &Viewport, seg_width: u16) -> (segs: Vec<(usize, usize)>)
    ensures
        segs@.len() == row_segments(line@, *vp, seg_width).len(),
        segs@.len() >= 1,
        forall|i: int|
            0 <= i < segs@.len() ==> (#[trigger] segs@[i]).0 as int == row_segments(line@, *vp, seg_width)[i].0
                && segs@[i].1 as int == row_segments(line@, *vp, seg_width)[i].1,
{
    proof {
        lemma_segments_tile_line(line@, seg_width, vp.wrap);
    }
    if vp.wrap == Wrap::Off {
        let mut v: Vec<(usize, usize)> = Vec::new();
        v.push((vp.top_col, usize::MAX));
        v
    } else {
        wrap_segments(line.as_str(), seg_width, vp.wrap)
    }
}

/// Pushes the screen rows of document row `doc` that fit in `room` rows.
fn push_text_rows(plan: &mut Vec<ScreenRow>, line: &String, vp: &Viewport, seg_width: u16, doc: usize, room: usize) -> (take: usize)
    requires
        room >= 1,
    ensures
        take == text_take(line@, *vp, seg_width, room as int),
        final(plan)@ == old(plan)@ + text_rows(line@, *vp, seg_width, doc as int, take as int),
{
    let segs = segments_of(line, vp, seg_width);
    let ghost rs = row_segments(line@, *vp, seg_width);
    let take = if segs.len() < room { segs.len() } else { room };
    let ghost plan0 = plan@;
    let ghost shown = text_rows(line@, *vp, seg_width, doc as int, take as int);
    let mut k: usize = 0;
    while k < take
        invariant
            k <= take <= segs@.len(),
            segs@.len() == rs.len(),
            rs == row_segments(line@, *vp, seg_width),
            forall|i: int|
                0 <= i < segs@.len() ==> (#[trigger] segs@[i]).0 as int == rs[i].0 && segs@[i].1 as int == rs[i].1,
            plan@ == plan0 + shown.take(k as int),
            shown == text_rows(line@, *vp, seg_width, doc as int, take as int),
        decreases take - k,
    {
        let (a, e) = segs[k];
        plan.push(ScreenRow::Text { doc_row: doc, seg_start: a, seg_end: e, first: k == 0, last: k + 1 == segs.len() });
        k = k + 1;
        proof {
            assert(plan@ =~= plan0 + shown.take(k as int));
        }
    }
    proof {
        assert(shown.take(take as int) =~= shown);
    }
    take
}

/// The screen rows of the view (see [`plan_from`]): starting at the
/// viewport's top row, as many as fit in `height` rows, wrapping in
/// `seg_width` columns.
pub fn plan_frame(lines: &[String], folds: &[Fold], vp: &Viewport, height: u16, seg_width: u16) -> (plan: Vec<ScreenRow>)
    requires
        forall|k: int| 0 <= k < folds@.len() ==> (#[trigger] folds@[k]).end_row < usize::MAX,
    ensures
        plan@ == plan_from(lines@, folds@, *vp, height as int, seg_width, vp.top_row as int, 0),
{
    let ghost target = plan_from(lines@, folds@, *vp, height as int, seg_width, vp.top_row as int, 0);
    let mut plan: Vec<ScreenRow> = Vec::new();
    let mut doc = vp.top_row;
    let mut sr: usize = 0;
    let total = lines.len();
    let h = height as usize;
    while doc < total && sr < h
        invariant
            total == lines@.len(),
            h == height,
            sr <= h,
            forall|k: int| 0 <= k < folds@.len() ==> (#[trigger] folds@[k]).end_row < usize::MAX,
            plan@ + plan_from(lines@, folds@, *vp, height as int, seg_width, doc as int, sr as int) == target,
        decreases h - sr, total - doc,
    {
        proof {
            lemma_plan_step(lines@, folds@, *vp, height as int, seg_width, doc as int, sr as int);
        }
        if hidden(folds, doc) {
            doc = doc + 1;
        } else {
            match find_marker_fold(folds, doc) {
                Some(k) => {
                    plan.push(ScreenRow::Marker { doc_row: doc, fold: k });
                    proof {
                        assert(plan@ + plan_from(lines@, folds@, *vp, height as int, seg_width, folds@[k as int].end_row + 1, sr + 1)
                            =~= target);
                    }
                    doc = folds[k].end_row + 1;
                    sr = sr + 1;
                },
                None => {
                    let ghost plan0 = plan@;
                    let take = push_text_rows(&mut plan, &lines[doc], vp, seg_width, doc, h - sr);
                    proof {
                        assert(plan@ + plan_from(lines@, folds@, *vp, height as int, seg_width, doc + 1, sr + take)
                            =~= target);
                    }
                    doc = doc + 1;
                    sr = sr + take;
                },
            }
        }
    }
    proof {
        lemma_plan_done(lines@, folds@, *vp, height as int, seg_width, doc as int, sr as int);
        assert(plan@ =~= target);
    }
    plan
}

/// Every screen row of a plan names an existing document row (and fold),
/// and a plan never has more rows than the area has left.
pub proof fn lemma_plan_rows_valid(
    lines: Seq<String>,
    folds: Seq<Fold>,
    vp: Viewport,
    height: int,
    seg_width: u16,
    doc: int,
    sr: int,
)
    ensures
        forall|k: int| 0 <= k < plan_from(lines, folds, vp, height, seg_width, doc, sr).len() ==> plan_row_valid(
            #[trigger] plan_from(lines, folds, vp, height, seg_width, doc, sr)[k],
            lines,
            folds,
        ),
        plan_from(lines, folds, vp, height, seg_width, doc, sr).len() <= if height - sr > 0 { height - sr } else { 0 },
    decreases height - sr, lines.len() - doc,
{
    reveal(plan_from);
    let p = plan_from(lines, folds, vp, height, seg_width, doc, sr);
    if doc < 0 || doc >= lines.len() || sr < 0 || sr >= height {
    } else if any_hides(folds, doc) {
        lemma_plan_rows_valid(lines, folds, vp, height, seg_width, doc + 1, sr);
    } else {
        match marker_fold(folds, doc) {
            Some(k) => {
                lemma_marker_fold_in_range(folds, doc);
                lemma_plan_rows_valid(lines, folds, vp, height, seg_width, folds[k].end_row + 1, sr + 1);
                let rest = plan_from(lines, folds, vp, height, seg_width, folds[k].end_row + 1, sr + 1);
                assert forall|j: int| 0 <= j < p.len() implies plan_row_valid(#[trigger] p[j], lines, folds) by {
                    if j > 0 {
                        assert(p[j] == rest[j - 1]);
                    }
                };
            },
            None => {
                lemma_segments_tile_line(lines[doc]@, seg_width, vp.wrap);
                let segs = row_segments(lines[doc]@, vp, seg_width);
                let take = if segs.len() < height - sr { segs.len() as int } else { height - sr };
                lemma_plan_rows_valid(lines, folds, vp, height, seg_width, doc + 1, sr + take);
                let rest = plan_from(lines, folds, vp, height, seg_width, doc + 1, sr + take);
                assert forall|j: int| 0 <= j < p.len() implies plan_row_valid(#[trigger] p[j], lines, folds) by {
                    if j >= take {
                        assert(p[j] == rest[j - take]);
                    }
                };
            },
        }
    }
}

/// The document row and fold that a screen row names exist.
pub open spec fn plan_row_valid(r: ScreenRow, lines: Seq<String>, folds: Seq<Fold>) -> bool {
    match r {
        ScreenRow::Marker { doc_row, fold } => doc_row < lines.len() && fold < folds.len(),
        ScreenRow::Text { doc_row, .. } => doc_row < lines.len(),
    }
}

/// The document row a screen row shows.
pub open spec fn shown_row(r: ScreenRow) -> int {
    match r {
        ScreenRow::Marker { doc_row, .. } => doc_row as int,
        ScreenRow::Text { doc_row, .. } => doc_row as int,
    }
}

/// With a gutter, every line number the plan shows (its document row plus
/// one plus the gutter's line offset) fits in a `usize`.
pub open spec fn gutter_numbers_fit(fs: FrameSettings, plan: Seq<ScreenRow>) -> bool {
    fs.gutter matches Some((w, off)) ==> forall|k: int| 0 <= k < plan.len() ==> shown_row(#[trigger] plan[k]) + 1 + off <= usize::MAX
}

/// What a frame is drawn with besides the document: the cursor, the
/// viewport, the area's size, the gutter's width and line offset when
/// there is a gutter, and which of the cursor-line, cursor-column and
/// search backgrounds are set.
#[derive(Debug, Clone, Copy)]
pub struct FrameSettings {
    pub cursor: Position,
    pub viewport: Viewport,
    pub area_width: u16,
    pub area_height: u16,
    pub gutter: Option<(u16, usize)>,
    pub cursor_line_enabled: bool,
    pub cursor_column_enabled: bool,
    pub search_enabled: bool,
}

/// Columns the gutter takes.
pub open spec fn gutter_width(fs: FrameSettings) -> int {
    match fs.gutter {
        Some((w, _)) => w as int,
        None => 0,
    }
}

/// Columns of the text area right of the gutter.
pub open spec fn text_width(fs: FrameSettings) -> int {
    if fs.area_width >= gutter_width(fs) { fs.area_width - gutter_width(fs) } else { 0 }
}

/// Columns the wrap segmentation uses: the viewport's published text
/// width, else the text area's.
pub open spec fn seg_width(fs: FrameSettings) -> u16 {
    if fs.viewport.text_width > 0 { fs.viewport.text_width } else { text_width(fs) as u16 }
}

/// The screen rows of a frame.
pub open spec fn frame_plan(fs: FrameSettings, lines: Seq<String>, folds: Seq<Fold>) -> Seq<ScreenRow> {
    plan_from(lines, folds, fs.viewport, fs.area_height as int, seg_width(fs), fs.viewport.top_row as int, 0)
}

/// The sign shown on document row `row`, if any.
pub open spec fn sign_at<S>(signs: Seq<Sign<S>>, row: int) -> Option<int> {
    if exists|i: int| is_winning_sign(signs, row, i) {
        Some(choose|i: int| is_winning_sign(signs, row, i))
    } else {
        None
    }
}

proof fn lemma_winning_unique<S>(signs: Seq<Sign<S>>, row: int, i: int, k: int)
    requires
        is_winning_sign(signs, row, i),
        is_winning_sign(signs, row, k),
    ensures
        i == k,
{
    if i < k {
        assert(signs[k].row == row);
    } else if k < i {
        assert(signs[i].row == row);
    }
}

/// The gutter of the first screen row of document row `doc`: the number
/// cells, then the winning sign in column 0.
pub open spec fn gutter_ops<S>(fs: FrameSettings, signs: Seq<Sign<S>>, doc: int, y: int) -> Seq<PaintOp> {
    match fs.gutter {
        None => Seq::empty(),
        Some((w, off)) => {
            let cells = gutter_cells_spec(doc as nat, off as nat, w);
            Seq::new(cells.len(), |i: int| PaintOp { x: cells[i].0, y: y as usize, ch: Some(cells[i].1), style: PaintStyle::Gutter })
                + match sign_at(signs, doc) {
                    Some(i) => seq![PaintOp { x: 0, y: y as usize, ch: Some(signs[i].ch), style: PaintStyle::Sign(i as usize) }],
                    None => Seq::empty(),
                }
        },
    }
}

/// The gutter of a wrap-continuation row: blank cells in the gutter style.
pub open spec fn blank_gutter_ops(fs: FrameSettings, y: int) -> Seq<PaintOp> {
    match fs.gutter {
        None => Seq::empty(),
        Some((w, _)) => Seq::new(w as nat, |x: int| PaintOp { x: x as usize, y: y as usize, ch: Some(' '), style: PaintStyle::Gutter }),
    }
}

/// `ops` moved right by `dx` columns.
pub open spec fn shifted(ops: Seq<PaintOp>, dx: usize) -> Seq<PaintOp> {
    Seq::new(ops.len(), |i: int| PaintOp { x: ops[i].x.saturating_add(dx), y: ops[i].y, ch: ops[i].ch, style: ops[i].style })
}

/// A closed fold's marker row: the row background (the cursor line's when
/// the fold starts on the cursor row and that background is set), then
/// the label.
pub open spec fn marker_ops(fs: FrameSettings, lines: Seq<String>, folds: Seq<Fold>, doc: int, f: int, y: int) -> Seq<PaintOp> {
    let style = PaintStyle::Text(CellStyle {
        cursor_line: doc == fs.cursor.row && fs.cursor_line_enabled,
        syntax: None,
        selection: false,
        search: false,
        cursor: false,
    });
    let tw = text_width(fs);
    let gw = gutter_width(fs);
    let cells = run_cells(fold_label(lines[doc]@, folds[f].spec_line_count()), 0, 0, tw as nat);
    Seq::new(tw as nat, |x: int| PaintOp { x: (gw + x) as usize, y: y as usize, ch: None, style })
        + Seq::new(cells.len(), |i: int| PaintOp { x: (gw + cells[i].0) as usize, y: y as usize, ch: Some(cells[i].1), style })
}

/// The spans of document row `doc` (none past the end of the table).
pub open spec fn spans_of(spans: Seq<Vec<Span>>, doc: int) -> Seq<Span> {
    if 0 <= doc < spans.len() { spans[doc]@ } else { Seq::empty() }
}

/// The selected columns of document row `doc` (none past the table).
pub open spec fn selection_of(sel: Seq<Option<(usize, usize)>>, doc: int) -> Option<(usize, usize)> {
    if 0 <= doc < sel.len() { sel[doc] } else { None }
}

/// The row layout of a text screen row.
pub open spec fn row_ctx(fs: FrameSettings, sel: Seq<Option<(usize, usize)>>, r: ScreenRow, y: int) -> RowLayout {
    match r {
        ScreenRow::Text { doc_row, seg_start, seg_end, first, last } => RowLayout {
            doc_row,
            y: y as usize,
            width: text_width(fs) as usize,
            is_cursor_row: doc_row == fs.cursor.row,
            cursor_col: fs.cursor.col,
            seg_start,
            seg_end,
            is_last_segment: last,
            cursor_line_enabled: fs.cursor_line_enabled,
            search_enabled: fs.search_enabled,
            selection: selection_of(sel, doc_row as int),
        },
        ScreenRow::Marker { doc_row, .. } => RowLayout {
            doc_row,
            y: y as usize,
            width: 0,
            is_cursor_row: false,
            cursor_col: 0,
            seg_start: 0,
            seg_end: 0,
            is_last_segment: false,
            cursor_line_enabled: false,
            search_enabled: false,
            selection: None,
        },
    }
}

/// Paint operations of screen row `y`, which shows `r`; `search` holds the
/// match columns of the row's document row.
pub open spec fn entry_ops<S>(
    fs: FrameSettings,
    lines: Seq<String>,
    folds: Seq<Fold>,
    spans: Seq<Vec<Span>>,
    sel: Seq<Option<(usize, usize)>>,
    conceals: Seq<Conceal>,
    signs: Seq<Sign<S>>,
    r: ScreenRow,
    search: Seq<(usize, usize)>,
    y: int,
) -> Seq<PaintOp> {
    match r {
        ScreenRow::Marker { doc_row, fold } => gutter_ops(fs, signs, doc_row as int, y)
            + marker_ops(fs, lines, folds, doc_row as int, fold as int, y),
        ScreenRow::Text { doc_row, first, .. } => (if first {
            gutter_ops(fs, signs, doc_row as int, y)
        } else {
            blank_gutter_ops(fs, y)
        }) + shifted(
            row_ops(row_ctx(fs, sel, r, y), lines[doc_row as int]@, spans_of(spans, doc_row as int), search, conceals),
            gutter_width(fs) as usize,
        ),
    }
}

/// Paint operations of the screen rows from `k` on.
pub open spec fn paint_from<S>(
    fs: FrameSettings,
    lines: Seq<String>,
    folds: Seq<Fold>,
    spans: Seq<Vec<Span>>,
    sel: Seq<Option<(usize, usize)>>,
    conceals: Seq<Conceal>,
    signs: Seq<Sign<S>>,
    plan: Seq<ScreenRow>,
    search: Seq<Vec<(usize, usize)>>,
    k: int,
) -> Seq<PaintOp>
    decreases plan.len() - k,
{
    if k < 0 || k >= plan.len() {
        Seq::empty()
    } else {
        entry_ops(fs, lines, folds, spans, sel, conceals, signs, plan[k], search[k]@, k)
            + paint_from(fs, lines, folds, spans, sel, conceals, signs, plan, search, k + 1)
    }
}

/// Whether the cursor-column background is painted: not wrapping, the
/// background set, and the cursor's column inside the text area.
pub open spec fn column_shown(fs: FrameSettings) -> bool {
    &&& fs.viewport.wrap == Wrap::Off
    &&& fs.cursor_column_enabled
    &&& fs.cursor.col >= fs.viewport.top_col
    &&& fs.cursor.col - fs.viewport.top_col < text_width(fs)
}

/// The cursor-column background, from screen row `k` on, skipping rows
/// where a search match covers the cursor's column (search wins).
pub open spec fn column_ops(fs: FrameSettings, plan: Seq<ScreenRow>, search: Seq<Vec<(usize, usize)>>, k: int) -> Seq<PaintOp>
    decreases plan.len() - k,
{
    if k < 0 || k >= plan.len() || !column_shown(fs) {
        Seq::empty()
    } else {
        let hit = plan[k] is Text && in_search(search[k]@, fs.cursor.col as int);
        (if hit {
            Seq::empty()
        } else {
            seq![PaintOp {
                x: (gutter_width(fs) + fs.cursor.col - fs.viewport.top_col) as usize,
                y: k as usize,
                ch: None,
                style: PaintStyle::CursorColumn,
            }]
        }) + column_ops(fs, plan, search, k + 1)
    }
}

/// Every paint operation of a frame, in order.
pub open spec fn frame_ops<S>(
    fs: FrameSettings,
    lines: Seq<String>,
    folds: Seq<Fold>,
    spans: Seq<Vec<Span>>,
    sel: Seq<Option<(usize, usize)>>,
    conceals: Seq<Conceal>,
    signs: Seq<Sign<S>>,
    plan: Seq<ScreenRow>,
    search: Seq<Vec<(usize, usize)>>,
) -> Seq<PaintOp> {
    paint_from(fs, lines, folds, spans, sel, conceals, signs, plan, search, 0) + column_ops(fs, plan, search, 0)
}

fn gutter_width_of(fs: &FrameSettings) -> (w: u16)
    ensures
        w == gutter_width(*fs),
{
    match fs.gutter {
        Some((w, _)) => w,
        None => 0,
    }
}

fn text_width_of(fs: &FrameSettings) -> (w: u16)
    ensures
        w == text_width(*fs),
{
    let gw = gutter_width_of(fs);
    if fs.area_width >= gw { fs.area_width - gw } else { 0 }
}

fn push_gutter<S>(ops: &mut Vec<PaintOp>, fs: &FrameSettings, signs: &[Sign<S>], doc: usize, y: usize)
    requires
        fs.gutter matches Some((w, off)) ==> doc + 1 + off <= usize::MAX,
    ensures
        final(ops)@ == old(ops)@ + gutter_ops(*fs, signs@, doc as int, y as int),
{
    match fs.gutter {
        None => {
            assert(old(ops)@ =~= old(ops)@ + Seq::<PaintOp>::empty());
        },
        Some((w, off)) => {
            let cells = gutter_cells(doc, off, w);
            let ghost ops0 = ops@;
            let ghost cs = cells@;
            let mut i: usize = 0;
            while i < cells.len()
                invariant
                    i <= cs.len(),
                    cs == cells@,
                    ops@ == ops0 + Seq::new(i as nat, |k: int| PaintOp { x: cs[k].0, y, ch: Some(cs[k].1), style: PaintStyle::Gutter }),
                decreases cs.len() - i,
            {
                let (x, c) = cells[i];
                ops.push(PaintOp { x, y, ch: Some(c), style: PaintStyle::Gutter });
                i = i + 1;
                proof {
                    assert(ops@ =~= ops0 + Seq::new(i as nat, |k: int| PaintOp { x: cs[k].0, y, ch: Some(cs[k].1), style: PaintStyle::Gutter }));
                }
            }
            match winning_sign(signs, doc) {
                Some(si) => {
                    proof {
                        let k = choose|k: int| is_winning_sign(signs@, doc as int, k);
                        lemma_winning_unique(signs@, doc as int, si as int, k);
                    }
                    ops.push(PaintOp { x: 0, y, ch: Some(signs[si].ch), style: PaintStyle::Sign(si) });
                },
                None => {
                    proof {
                        if exists|k: int| is_winning_sign(signs@, doc as int, k) {
                            let k = choose|k: int| is_winning_sign(signs@, doc as int, k);
                            assert(signs@[k].row == doc);
                        }
                    }
                },
            }
            proof {
                assert(ops@ =~= old(ops)@ + gutter_ops(*fs, signs@, doc as int, y as int));
            }
        },
    }
}

fn push_blank_gutter(ops: &mut Vec<PaintOp>, fs: &FrameSettings, y: usize)
    ensures
        final(ops)@ == old(ops)@ + blank_gutter_ops(*fs, y as int),
{
    match fs.gutter {
        None => {
            assert(old(ops)@ =~= old(ops)@ + Seq::<PaintOp>::empty());
        },
        Some((w, _)) => {
            let ghost ops0 = ops@;
            let mut x: usize = 0;
            while x < w as usize
                invariant
                    x <= w,
                    ops@ == ops0 + Seq::new(x as nat, |k: int| PaintOp { x: k as usize, y, ch: Some(' '), style: PaintStyle::Gutter }),
                decreases w - x,
            {
                ops.push(PaintOp { x, y, ch: Some(' '), style: PaintStyle::Gutter });
                x = x + 1;
                proof {
                    assert(ops@ =~= ops0 + Seq::new(x as nat, |k: int| PaintOp { x: k as usize, y, ch: Some(' '), style: PaintStyle::Gutter }));
                }
            }
        },
    }
}

fn push_marker(ops: &mut Vec<PaintOp>, fs: &FrameSettings, lines: &[String], folds: &[Fold], doc: usize, f: usize, y: usize)
    requires
        doc < lines@.len(),
        f < folds@.len(),
        folds@[f as int].end_row < usize::MAX,
    ensures
        final(ops)@ == old(ops)@ + marker_ops(*fs, lines@, folds@, doc as int, f as int, y as int),
{
    let style = PaintStyle::Text(CellStyle {
        cursor_line: doc == fs.cursor.row && fs.cursor_line_enabled,
        syntax: None,
        selection: false,
        search: false,
        cursor: false,
    });
    let gw = gutter_width_of(fs) as usize;
    let tw = text_width_of(fs) as usize;
    let ghost ops0 = ops@;
    let mut x: usize = 0;
    while x < tw
        invariant
            x <= tw,
            tw <= u16::MAX,
            gw <= u16::MAX,
            ops@ == ops0 + Seq::new(x as nat, |k: int| PaintOp { x: (gw + k) as usize, y, ch: None, style }),
        decreases tw - x,
    {
        ops.push(PaintOp { x: gw + x, y, ch: None, style });
        x = x + 1;
        proof {
            assert(ops@ =~= ops0 + Seq::new(x as nat, |k: int| PaintOp { x: (gw + k) as usize, y, ch: None, style }));
        }
    }
    let ghost ops1 = ops@;
    let count = folds[f].line_count();
    let label = fold_marker_label(lines[doc].as_str(), count);
    let cells = place_run(&label, tw);
    let ghost cs = cells@;
    proof {
        crate::render::lemma_run_cells_bound(label@, 0, 0, tw as nat);
    }
    let mut i: usize = 0;
    while i < cells.len()
        invariant
            i <= cs.len(),
            cs == cells@,
            gw <= u16::MAX,
            forall|k: int| 0 <= k < cs.len() ==> (#[trigger] cs[k]).0 < tw,
            tw <= u16::MAX,
            ops@ == ops1 + Seq::new(i as nat, |k: int| PaintOp { x: (gw + cs[k].0) as usize, y, ch: Some(cs[k].1), style }),
        decreases cs.len() - i,
    {
        let (cx, c) = cells[i];
        ops.push(PaintOp { x: gw + cx, y, ch: Some(c), style });
        i = i + 1;
        proof {
            assert(ops@ =~= ops1 + Seq::new(i as nat, |k: int| PaintOp { x: (gw + cs[k].0) as usize, y, ch: Some(cs[k].1), style }));
        }
    }
    proof {
        assert(ops@ =~= old(ops)@ + marker_ops(*fs, lines@, folds@, doc as int, f as int, y as int));
    }
}

fn push_shifted(ops: &mut Vec<PaintOp>, row: &Vec<PaintOp>, dx: usize)
    ensures
        final(ops)@ == old(ops)@ + shifted(row@, dx),
{
    let ghost ops0 = ops@;
    let mut i: usize = 0;
    while i < row.len()
        invariant
            i <= row@.len(),
            ops@ == ops0 + shifted(row@, dx).take(i as int),
        decreases row@.len() - i,
    {
        let op = row[i];
        ops.push(PaintOp { x: op.x.saturating_add(dx), y: op.y, ch: op.ch, style: op.style });
        i = i + 1;
        proof {
            assert(ops@ =~= ops0 + shifted(row@, dx).take(i as int));
        }
    }
    proof {
        assert(shifted(row@, dx).take(i as int) =~= shifted(row@, dx));
    }
}

#[verifier::spinoff_prover]
#[verifier::rlimit(40)]
fn push_entry<S>(
    ops: &mut Vec<PaintOp>,
    fs: &FrameSettings,
    lines: &[String],
    folds: &[Fold],
    spans: &[Vec<Span>],
    sel: &[Option<(usize, usize)>],
    conceals: &[Conceal],
    signs: &[Sign<S>],
    entry: ScreenRow,
    search: &Vec<(usize, usize)>,
    y: usize,
)
    requires
        plan_row_valid(entry, lines@, folds@),
        forall|k: int| 0 <= k < folds@.len() ==> (#[trigger] folds@[k]).end_row < usize::MAX,
        forall|k: int| 0 <= k < lines@.len() ==> crate::text::byte_len((#[trigger] lines@[k])@) <= usize::MAX,
        fs.gutter matches Some((w, off)) ==> shown_row(entry) + 1 + off <= usize::MAX,
    ensures
        final(ops)@ == old(ops)@ + entry_ops(*fs, lines@, folds@, spans@, sel@, conceals@, signs@, entry, search@, y as int),
{
    match entry {
        ScreenRow::Marker { doc_row, fold } => {
            push_gutter(ops, fs, signs, doc_row, y);
            push_marker(ops, fs, lines, folds, doc_row, fold, y);
            proof {
                assert(ops@ =~= old(ops)@ + entry_ops(*fs, lines@, folds@, spans@, sel@, conceals@, signs@, entry, search@, y as int));
            }
        },
        ScreenRow::Text { doc_row, seg_start, seg_end, first, last } => {
            if first {
                push_gutter(ops, fs, signs, doc_row, y);
            } else {
                push_blank_gutter(ops, fs, y);
            }
            let selection = if doc_row < sel.len() { sel[doc_row] } else { None };
            let ctx = RowLayout {
                doc_row,
                y,
                width: text_width_of(fs) as usize,
                is_cursor_row: doc_row == fs.cursor.row,
                cursor_col: fs.cursor.col,
                seg_start,
                seg_end,
                is_last_segment: last,
                cursor_line_enabled: fs.cursor_line_enabled,
                search_enabled: fs.search_enabled,
                selection,
            };
            assert(ctx == row_ctx(*fs, sel@, entry, y as int));
            let no_spans: Vec<Span> = Vec::new();
            let row_spans: &[Span] = if doc_row < spans.len() { spans[doc_row].as_slice() } else { no_spans.as_slice() };
            assert(row_spans@ == spans_of(spans@, doc_row as int));
            let row = layout_row(&ctx, lines[doc_row].as_str(), row_spans, search, conceals);
            push_shifted(ops, &row, gutter_width_of(fs) as usize);
            proof {
                assert(ops@ =~= old(ops)@ + entry_ops(*fs, lines@, folds@, spans@, sel@, conceals@, signs@, entry, search@, y as int));
            }
        },
    }
}

/// Paint operations of a frame whose screen rows are `plan` (see
/// [`frame_ops`]); `search[k]` holds the match columns of the document
/// row that screen row `k` shows.
pub fn paint_plan<S>(
    fs: &FrameSettings,
    lines: &[String],
    folds: &[Fold],
    spans: &[Vec<Span>],
    sel: &[Option<(usize, usize)>],
    conceals: &[Conceal],
    signs: &[Sign<S>],
    plan: &Vec<ScreenRow>,
    search: &Vec<Vec<(usize, usize)>>,
) -> (ops: Vec<PaintOp>)
    requires
        search@.len() == plan@.len(),
        forall|k: int| 0 <= k < plan@.len() ==> plan_row_valid(#[trigger] plan@[k], lines@, folds@),
        forall|k: int| 0 <= k < folds@.len() ==> (#[trigger] folds@[k]).end_row < usize::MAX,
        forall|k: int| 0 <= k < lines@.len() ==> crate::text::byte_len((#[trigger] lines@[k])@) <= usize::MAX,
        gutter_numbers_fit(*fs, plan@),
    ensures
        ops@ == frame_ops(*fs, lines@, folds@, spans@, sel@, conceals@, signs@, plan@, search@),
{
    let ghost whole = paint_from(*fs, lines@, folds@, spans@, sel@, conceals@, signs@, plan@, search@, 0);
    let mut ops: Vec<PaintOp> = Vec::new();
    let mut k: usize = 0;
    while k < plan.len()
        invariant
            k <= plan@.len(),
            search@.len() == plan@.len(),
            forall|j: int| 0 <= j < plan@.len() ==> plan_row_valid(#[trigger] plan@[j], lines@, folds@),
            forall|j: int| 0 <= j < folds@.len() ==> (#[trigger] folds@[j]).end_row < usize::MAX,
            forall|j: int| 0 <= j < lines@.len() ==> crate::text::byte_len((#[trigger] lines@[j])@) <= usize::MAX,
            gutter_numbers_fit(*fs, plan@),
            ops@ + paint_from(*fs, lines@, folds@, spans@, sel@, conceals@, signs@, plan@, search@, k as int) == whole,
        decreases plan@.len() - k,
    {
        let ghost ops0 = ops@;
        push_entry(&mut ops, fs, lines, folds, spans, sel, conceals, signs, plan[k], &search[k], k);
        proof {
            assert(ops@ + paint_from(*fs, lines@, folds@, spans@, sel@, conceals@, signs@, plan@, search@, k + 1) =~= whole);
        }
        k = k + 1;
    }
    proof {
        assert(ops@ =~= whole);
    }
    let ghost painted = ops@;
    let gw = gutter_width_of(fs) as usize;
    let tw = text_width_of(fs) as usize;
    let shown = fs.viewport.wrap == Wrap::Off && fs.cursor_column_enabled && fs.cursor.col >= fs.viewport.top_col
        && fs.cursor.col - fs.viewport.top_col < tw;
    let ghost cols = column_ops(*fs, plan@, search@, 0);
    if shown {
        let mut k: usize = 0;
        while k < plan.len()
            invariant
                k <= plan@.len(),
                search@.len() == plan@.len(),
                column_shown(*fs),
                gw == gutter_width(*fs),
                tw == text_width(*fs),
                tw <= u16::MAX,
                gw <= u16::MAX,
                ops@ + column_ops(*fs, plan@, search@, k as int) == painted + cols,
            decreases plan@.len() - k,
        {
            let hit = match plan[k] {
                ScreenRow::Text { .. } => search_hit(&search[k], fs.cursor.col),
                ScreenRow::Marker { .. } => false,
            };
            if !hit {
                ops.push(PaintOp {
                    x: gw + (fs.cursor.col - fs.viewport.top_col),
                    y: k,
                    ch: None,
                    style: PaintStyle::CursorColumn,
                });
            }
            proof {
                assert(ops@ + column_ops(*fs, plan@, search@, k + 1) =~= painted + cols);
            }
            k = k + 1;
        }
        proof {
            assert(ops@ =~= painted + cols);
        }
    } else {
        proof {
            assert(cols =~= Seq::<PaintOp>::empty());
            assert(ops@ =~= painted + cols);
        }
    }
    ops
}

/// Match columns a frame's search table may hold: one entry per screen
/// row; for a text row, ordered non-overlapping char ranges inside its
/// document row; for a marker row, none; and none at all without a
/// pattern.
pub open spec fn search_table_fits(
    plan: Seq<ScreenRow>,
    lines: Seq<String>,
    search: Seq<Vec<(usize, usize)>>,
    pattern: Option<&Regex>,
) -> bool {
    &&& search.len() == plan.len()
    &&& forall|k: int| 0 <= k < plan.len() ==> match #[trigger] plan[k] {
        ScreenRow::Text { doc_row, .. } => {
            &&& row_matches(lines[doc_row as int]@, pattern, search[k]@)
            &&& (forall|i: int| 0 <= i < search[k]@.len() ==> (#[trigger] search[k]@[i]).0 <= search[k]@[i].1)
            &&& (forall|i: int, j: int| 0 <= i < j < search[k]@.len() ==> (#[trigger] search[k]@[i]).1
                <= (#[trigger] search[k]@[j]).0)
        },
        ScreenRow::Marker { .. } => search[k]@.len() == 0,
    }
}

/// The match columns of a row: those of the pattern's matches on the
/// line when there is a pattern, none otherwise.
pub open spec fn row_matches(line: Seq<char>, pattern: Option<&Regex>, cols: Seq<(usize, usize)>) -> bool {
    match pattern {
        Some(re) => match_columns(line, regex_find_bytes(*re, line), cols),
        None => cols.len() == 0,
    }
}

fn copy_ranges(v: &Vec<(usize, usize)>) -> (c: Vec<(usize, usize)>)
    ensures
        c@ == v@,
{
    let mut c: Vec<(usize, usize)> = Vec::new();
    let mut i: usize = 0;
    while i < v.len()
        invariant
            i <= v@.len(),
            c@ == v@.take(i as int),
        decreases v@.len() - i,
    {
        c.push(v[i]);
        i = i + 1;
        proof {
            assert(c@ =~= v@.take(i as int));
        }
    }
    proof {
        assert(v@.take(i as int) =~= v@);
    }
    c
}

/// Paint operations of one frame of the view: the screen rows that the
/// viewport shows (skipping rows hidden by closed folds, one marker row
/// per closed fold, one row per wrap segment), the gutter with line
/// numbers and signs, each row's text cells with their style layers, and
/// the cursor-column background. The search pattern's matches are found
/// per shown document row; the operations are those of [`frame_ops`] for a
/// search table holding, for each text row, ordered match columns inside
/// that row (none when there is no pattern).
pub fn layout_frame<S>(
    fs: &FrameSettings,
    lines: &[String],
    folds: &[Fold],
    spans: &[Vec<Span>],
    sel: &[Option<(usize, usize)>],
    conceals: &[Conceal],
    signs: &[Sign<S>],
    pattern: Option<&Regex>,
) -> (ops: Vec<PaintOp>)
    requires
        forall|k: int| 0 <= k < folds@.len() ==> (#[trigger] folds@[k]).end_row < usize::MAX,
        forall|k: int| 0 <= k < lines@.len() ==> crate::text::byte_len((#[trigger] lines@[k])@) <= usize::MAX,
        gutter_numbers_fit(*fs, frame_plan(*fs, lines@, folds@)),
    ensures
        exists|search: Seq<Vec<(usize, usize)>>|
            search_table_fits(frame_plan(*fs, lines@, folds@), lines@, search, pattern)
                && ops@ == #[trigger] frame_ops(*fs, lines@, folds@, spans@, sel@, conceals@, signs@, frame_plan(*fs, lines@, folds@), search),
{
    let tw = text_width_of(fs);
    let sw = if fs.viewport.text_width > 0 { fs.viewport.text_width } else { tw };
    let plan = plan_frame(lines, folds, &fs.viewport, fs.area_height, sw);
    proof {
        lemma_plan_rows_valid(lines@, folds@, fs.viewport, fs.area_height as int, sw, fs.viewport.top_row as int, 0);
    }
    let ghost p = plan@;
    let mut search: Vec<Vec<(usize, usize)>> = Vec::new();
    let mut last_doc: usize = 0;
    let mut last_ranges: Vec<(usize, usize)> = Vec::new();
    let mut have_last = false;
    let mut k: usize = 0;
    while k < plan.len()
        invariant
            p == plan@,
            k <= p.len(),
            search@.len() == k,
            forall|j: int| 0 <= j < p.len() ==> plan_row_valid(#[trigger] p[j], lines@, folds@),
            have_last ==> last_doc < lines@.len(),
            have_last ==> row_matches(lines@[last_doc as int]@, pattern, last_ranges@),
            have_last ==> forall|i: int| 0 <= i < last_ranges@.len() ==> (#[trigger] last_ranges@[i]).0 <= last_ranges@[i].1,
            have_last ==> forall|i: int, j: int| 0 <= i < j < last_ranges@.len() ==> (#[trigger] last_ranges@[i]).1
                <= (#[trigger] last_ranges@[j]).0,
            forall|j: int| 0 <= j < k ==> match #[trigger] p[j] {
                ScreenRow::Text { doc_row, .. } => {
                    &&& row_matches(lines@[doc_row as int]@, pattern, search@[j]@)
                    &&& (forall|i: int| 0 <= i < search@[j]@.len() ==> (#[trigger] search@[j]@[i]).0 <= search@[j]@[i].1)
                    &&& (forall|i: int, i2: int| 0 <= i < i2 < search@[j]@.len() ==> (#[trigger] search@[j]@[i]).1
                        <= (#[trigger] search@[j]@[i2]).0)
                },
                ScreenRow::Marker { .. } => search@[j]@.len() == 0,
            },
        decreases p.len() - k,
    {
        match plan[k] {
            ScreenRow::Text { doc_row, .. } => {
                if !(have_last && last_doc == doc_row) {
                    last_ranges = row_search_ranges(pattern, lines[doc_row].as_str());
                    last_doc = doc_row;
                    have_last = true;
                }
                let c = copy_ranges(&last_ranges);
                search.push(c);
            },
            ScreenRow::Marker { .. } => {
                search.push(Vec::new());
            },
        }
        k = k + 1;
    }
    let ops = paint_plan(fs, lines, folds, spans, sel, conceals, signs, &plan, &search);
    proof {
        assert(search_table_fits(frame_plan(*fs, lines@, folds@), lines@, search@, pattern));
    }
    ops
}

/// Rows that a closed fold hides never show: no screen row of a plan,
/// text or fold marker, belongs to a document row that a closed fold
/// hides.
pub proof fn lemma_hidden_rows_never_shown(
    lines: Seq<String>,
    folds: Seq<Fold>,
    vp: Viewport,
    height: int,
    seg_width: u16,
    doc: int,
    sr: int,
)
    requires
        lines.len() <= usize::MAX,
    ensures
        forall|k: int| 0 <= k < plan_from(lines, folds, vp, height, seg_width, doc, sr).len() ==> match #[trigger] plan_from(
            lines,
            folds,
            vp,
            height,
            seg_width,
            doc,
            sr,
        )[k] {
            ScreenRow::Text { doc_row, .. } => !any_hides(folds, doc_row as int),
            ScreenRow::Marker { doc_row, .. } => !any_hides(folds, doc_row as int),
        },
    decreases height - sr, lines.len() - doc,
{
    reveal(plan_from);
    let p = plan_from(lines, folds, vp, height, seg_width, doc, sr);
    if doc < 0 || doc >= lines.len() || sr < 0 || sr >= height {
    } else if any_hides(folds, doc) {
        lemma_hidden_rows_never_shown(lines, folds, vp, height, seg_width, doc + 1, sr);
    } else {
        match marker_fold(folds, doc) {
            Some(k) => {
                lemma_hidden_rows_never_shown(lines, folds, vp, height, seg_width, folds[k].end_row + 1, sr + 1);
                let rest = plan_from(lines, folds, vp, height, seg_width, folds[k].end_row + 1, sr + 1);
                assert forall|j: int| 0 <= j < p.len() implies match #[trigger] p[j] {
                    ScreenRow::Text { doc_row, .. } => !any_hides(folds, doc_row as int),
                    ScreenRow::Marker { doc_row, .. } => !any_hides(folds, doc_row as int),
                } by {
                    if j > 0 {
                        assert(p[j] == rest[j - 1]);
                    }
                };
            },
            None => {
                lemma_segments_tile_line(lines[doc]@, seg_width, vp.wrap);
                let take = text_take(lines[doc]@, vp, seg_width, height - sr);
                lemma_hidden_rows_never_shown(lines, folds, vp, height, seg_width, doc + 1, sr + take);
                let rest = plan_from(lines, folds, vp, height, seg_width, doc + 1, sr + take);
                assert forall|j: int| 0 <= j < p.len() implies match #[trigger] p[j] {
                    ScreenRow::Text { doc_row, .. } => !any_hides(folds, doc_row as int),
                    ScreenRow::Marker { doc_row, .. } => !any_hides(folds, doc_row as int),
                } by {
                    if j >= take {
                        assert(p[j] == rest[j - take]);
                    }
                };
            },
        }
    }
}

proof fn lemma_column_ops_rows(fs: FrameSettings, plan: Seq<ScreenRow>, search: Seq<Vec<(usize, usize)>>, j: int)
    requires
        0 <= j,
        plan.len() <= usize::MAX,
    ensures
        forall|i: int| 0 <= i < column_ops(fs, plan, search, j).len() ==> {
            let y = (#[trigger] column_ops(fs, plan, search, j)[i]).y as int;
            &&& j <= y < plan.len()
            &&& !(plan[y] is Text && in_search(search[y]@, fs.cursor.col as int))
        },
    decreases plan.len() - j,
{
    if j < plan.len() && column_shown(fs) {
        lemma_column_ops_rows(fs, plan, search, j + 1);
        let c = column_ops(fs, plan, search, j);
        let rest = column_ops(fs, plan, search, j + 1);
        let hit = plan[j] is Text && in_search(search[j]@, fs.cursor.col as int);
        assert forall|i: int| 0 <= i < c.len() implies {
            let y = (#[trigger] c[i]).y as int;
            &&& j <= y < plan.len()
            &&& !(plan[y] is Text && in_search(search[y]@, fs.cursor.col as int))
        } by {
            if hit {
                assert(c[i] == rest[i]);
            } else if i > 0 {
                assert(c[i] == rest[i - 1]);
            }
        };
    }
}

/// Search highlight wins over the cursor column: no cursor-column paint
/// operation lands on a screen row where a search match covers the
/// cursor's column, so matches under the cursor stay readable.
pub proof fn lemma_search_wins_over_cursor_column(
    fs: FrameSettings,
    plan: Seq<ScreenRow>,
    search: Seq<Vec<(usize, usize)>>,
    k: int,
)
    requires
        0 <= k < plan.len(),
        plan.len() <= usize::MAX,
        plan[k] is Text,
        in_search(search[k]@, fs.cursor.col as int),
    ensures
        forall|i: int| 0 <= i < column_ops(fs, plan, search, 0).len() ==> (#[trigger] column_ops(fs, plan, search, 0)[i]).y != k,
{
    lemma_column_ops_rows(fs, plan, search, 0);
}

/// The screen rows of a frame (see [`frame_plan`]).
pub fn frame_plan_of(fs: &FrameSettings, lines: &[String], folds: &[Fold]) -> (plan: Vec<ScreenRow>)
    requires
        forall|k: int| 0 <= k < folds@.len() ==> (#[trigger] folds@[k]).end_row < usize::MAX,
    ensures
        plan@ == frame_plan(*fs, lines@, folds@),
{
    let tw = text_width_of(fs);
    let sw = if fs.viewport.text_width > 0 { fs.viewport.text_width } else { tw };
    plan_frame(lines, folds, &fs.viewport, fs.area_height, sw)
}

/// Whether every line number that `plan` shows fits in a `usize` (see
/// [`gutter_numbers_fit`]).
pub fn numbers_fit(fs: &FrameSettings, plan: &Vec<ScreenRow>) -> (b: bool)
    ensures
        b == gutter_numbers_fit(*fs, plan@),
{
    match fs.gutter {
        None => true,
        Some((_, off)) => {
            let mut k: usize = 0;
            while k < plan.len()
                invariant
                    k <= plan@.len(),
                    fs.gutter matches Some((_, o)) && o == off,
                    forall|j: int| 0 <= j < k ==> shown_row(#[trigger] plan@[j]) + 1 + off <= usize::MAX,
                decreases plan@.len() - k,
            {
                let row = match plan[k] {
                    ScreenRow::Marker { doc_row, .. } => doc_row,
                    ScreenRow::Text { doc_row, .. } => doc_row,
                };
                if row == usize::MAX || off > usize::MAX - (row + 1) {
                    return false;
                }
                k = k + 1;
            }
            true
        },
    }
}

/// [`layout_frame`] where its preconditions can fail: `None` exactly when
/// a fold ends at the last representable row or a line number the frame
/// would show does not fit in a `usize`; otherwise the frame's paint
/// operations.
pub fn try_layout_frame<S>(
    fs: &FrameSettings,
    lines: &[String],
    folds: &[Fold],
    spans: &[Vec<Span>],
    sel: &[Option<(usize, usize)>],
    conceals: &[Conceal],
    signs: &[Sign<S>],
    pattern: Option<&Regex>,
) -> (r: Option<Vec<PaintOp>>)
    requires
        forall|k: int| 0 <= k < lines@.len() ==> crate::text::byte_len((#[trigger] lines@[k])@) <= usize::MAX,
    ensures
        r is None <==> ((exists|k: int| 0 <= k < folds@.len() && (#[trigger] folds@[k]).end_row == usize::MAX)
            || !gutter_numbers_fit(*fs, frame_plan(*fs, lines@, folds@))),
        r matches Some(ops) ==> exists|search: Seq<Vec<(usize, usize)>>|
            search_table_fits(frame_plan(*fs, lines@, folds@), lines@, search, pattern)
                && ops@ == #[trigger] frame_ops(*fs, lines@, folds@, spans@, sel@, conceals@, signs@, frame_plan(*fs, lines@, folds@), search),
{
    let mut k: usize = 0;
    while k < folds.len()
        invariant
            k <= folds@.len(),
            forall|j: int| 0 <= j < k ==> (#[trigger] folds@[j]).end_row < usize::MAX,
        decreases folds@.len() - k,
    {
        if folds[k].end_row == usize::MAX {
            return None;
        }
        k = k + 1;
    }
    let plan = frame_plan_of(fs, lines, folds);
    if !numbers_fit(fs, &plan) {
        return None;
    }
    Some(layout_frame(fs, lines, folds, spans, sel, conceals, signs, pattern))
}

/// Every operation of `ops` is on one of the first `height` screen rows
/// and inside a row of `width` columns.
pub open spec fn ops_in_area(ops: Seq<PaintOp>, height: int, width: int) -> bool {
    forall|k: int| 0 <= k < ops.len() ==> (#[trigger] ops[k]).y < height && op_in_columns(ops[k], width)
}

proof fn lemma_ops_in_area_add(a: Seq<PaintOp>, b: Seq<PaintOp>, height: int, width: int)
    requires
        ops_in_area(a, height, width),
        ops_in_area(b, height, width),
    ensures
        ops_in_area(a + b, height, width),
{
    assert forall|k: int| 0 <= k < (a + b).len() implies (#[trigger] (a + b)[k]).y < height && op_in_columns((a + b)[k], width) by {
        if k < a.len() {
            assert((a + b)[k] == a[k]);
        } else {
            assert((a + b)[k] == b[k - a.len()]);
        }
    };
}

proof fn lemma_gutter_inside<S>(fs: FrameSettings, signs: Seq<Sign<S>>, doc: int, y: int)
    requires
        gutter_width(fs) <= fs.area_width,
        fs.gutter is Some ==> fs.area_width >= 1,
        0 <= y <= usize::MAX,
    ensures
        ops_in_row(gutter_ops(fs, signs, doc, y), y as usize, fs.area_width as int),
        ops_in_row(blank_gutter_ops(fs, y), y as usize, fs.area_width as int),
{
    if let Some((w, off)) = fs.gutter {
        let aw = fs.area_width as int;
        let cells = gutter_cells_spec(doc as nat, off as nat, w);
        let nw: int = if w > 0 { w - 1 } else { 0 };
        assert forall|i: int| 0 <= i < cells.len() implies (#[trigger] cells[i]).0 < aw by {
            assert(cells[i].0 <= nw);
        };
        let nums = Seq::new(cells.len(), |i: int| PaintOp { x: cells[i].0, y: y as usize, ch: Some(cells[i].1), style: PaintStyle::Gutter });
        assert(ops_in_row(nums, y as usize, aw)) by {
            assert forall|i: int| 0 <= i < nums.len() implies (#[trigger] nums[i]).y == y as usize && op_in_columns(nums[i], aw) by {
                assert(cells[i].0 < aw);
            };
        };
        let sign: Seq<PaintOp> = match sign_at(signs, doc) {
            Some(i) => seq![PaintOp { x: 0, y: y as usize, ch: Some(signs[i].ch), style: PaintStyle::Sign(i as usize) }],
            None => Seq::empty(),
        };
        assert(ops_in_row(sign, y as usize, aw));
        lemma_ops_in_row_add(nums, sign, y as usize, aw);
    }
}

proof fn lemma_entry_inside<S>(
    fs: FrameSettings,
    lines: Seq<String>,
    folds: Seq<Fold>,
    spans: Seq<Vec<Span>>,
    sel: Seq<Option<(usize, usize)>>,
    conceals: Seq<Conceal>,
    signs: Seq<Sign<S>>,
    r: ScreenRow,
    search: Seq<(usize, usize)>,
    y: int,
)
    requires
        gutter_width(fs) <= fs.area_width,
        fs.gutter is Some ==> fs.area_width >= 1,
        0 <= y <= usize::MAX,
    ensures
        ops_in_row(entry_ops(fs, lines, folds, spans, sel, conceals, signs, r, search, y), y as usize, fs.area_width as int),
{
    let aw = fs.area_width as int;
    let gw = gutter_width(fs);
    let tw = text_width(fs);
    lemma_gutter_inside(fs, signs, shown_row(r), y);
    match r {
        ScreenRow::Marker { doc_row, fold } => {
            let m = marker_ops(fs, lines, folds, doc_row as int, fold as int, y);
            let style = PaintStyle::Text(CellStyle {
                cursor_line: doc_row == fs.cursor.row && fs.cursor_line_enabled,
                syntax: None,
                selection: false,
                search: false,
                cursor: false,
            });
            let cells = run_cells(fold_label(lines[doc_row as int]@, folds[fold as int].spec_line_count()), 0, 0, tw as nat);
            lemma_run_cells_bound(fold_label(lines[doc_row as int]@, folds[fold as int].spec_line_count()), 0, 0, tw as nat);
            let fill = Seq::new(tw as nat, |x: int| PaintOp { x: (gw + x) as usize, y: y as usize, ch: None, style });
            let label = Seq::new(cells.len(), |i: int| PaintOp { x: (gw + cells[i].0) as usize, y: y as usize, ch: Some(cells[i].1), style });
            assert(ops_in_row(label, y as usize, aw)) by {
                assert forall|i: int| 0 <= i < label.len() implies (#[trigger] label[i]).y == y as usize && op_in_columns(label[i], aw) by {
                    assert(cells[i].0 < tw);
                };
            };
            assert(m == fill + label);
            lemma_ops_in_row_add(fill, label, y as usize, aw);
            lemma_ops_in_row_add(gutter_ops(fs, signs, doc_row as int, y), m, y as usize, aw);
        },
        ScreenRow::Text { doc_row, first, .. } => {
            let ctx = row_ctx(fs, sel, r, y);
            let row = row_ops(ctx, lines[doc_row as int]@, spans_of(spans, doc_row as int), search, conceals);
            lemma_row_ops_inside(ctx, lines[doc_row as int]@, spans_of(spans, doc_row as int), search, conceals);
            let moved = shifted(row, gw as usize);
            assert(ops_in_row(moved, y as usize, aw)) by {
                assert forall|i: int| 0 <= i < moved.len() implies (#[trigger] moved[i]).y == y as usize && op_in_columns(moved[i], aw) by {
                    assert(row[i].y == y as usize && op_in_columns(row[i], tw));
                    assert(row[i].x + gw <= usize::MAX);
                    assert(moved[i].x == row[i].x + gw);
                };
            };
            let g = if first { gutter_ops(fs, signs, doc_row as int, y) } else { blank_gutter_ops(fs, y) };
            lemma_ops_in_row_add(g, moved, y as usize, aw);
        },
    }
}

proof fn lemma_paint_from_inside<S>(
    fs: FrameSettings,
    lines: Seq<String>,
    folds: Seq<Fold>,
    spans: Seq<Vec<Span>>,
    sel: Seq<Option<(usize, usize)>>,
    conceals: Seq<Conceal>,
    signs: Seq<Sign<S>>,
    plan: Seq<ScreenRow>,
    search: Seq<Vec<(usize, usize)>>,
    k: int,
)
    requires
        gutter_width(fs) <= fs.area_width,
        fs.gutter is Some ==> fs.area_width >= 1,
        plan.len() <= fs.area_height,
    ensures
        ops_in_area(paint_from(fs, lines, folds, spans, sel, conceals, signs, plan, search, k), fs.area_height as int, fs.area_width as int),
    decreases plan.len() - k,
{
    if !(k < 0 || k >= plan.len()) {
        let aw = fs.area_width as int;
        let e = entry_ops(fs, lines, folds, spans, sel, conceals, signs, plan[k], search[k]@, k);
        lemma_entry_inside(fs, lines, folds, spans, sel, conceals, signs, plan[k], search[k]@, k);
        assert(ops_in_area(e, fs.area_height as int, aw)) by {
            assert forall|i: int| 0 <= i < e.len() implies (#[trigger] e[i]).y < fs.area_height && op_in_columns(e[i], aw) by {
                assert(e[i].y == k as usize);
            };
        };
        lemma_paint_from_inside(fs, lines, folds, spans, sel, conceals, signs, plan, search, k + 1);
        lemma_ops_in_area_add(
            e,
            paint_from(fs, lines, folds, spans, sel, conceals, signs, plan, search, k + 1),
            fs.area_height as int,
            aw,
        );
    }
}

proof fn lemma_column_inside(fs: FrameSettings, plan: Seq<ScreenRow>, search: Seq<Vec<(usize, usize)>>, k: int)
    requires
        gutter_width(fs) <= fs.area_width,
        plan.len() <= fs.area_height,
    ensures
        ops_in_area(column_ops(fs, plan, search, k), fs.area_height as int, fs.area_width as int),
    decreases plan.len() - k,
{
    if !(k < 0 || k >= plan.len() || !column_shown(fs)) {
        lemma_column_inside(fs, plan, search, k + 1);
        let hit = plan[k] is Text && in_search(search[k]@, fs.cursor.col as int);
        let head: Seq<PaintOp> = if hit {
            Seq::empty()
        } else {
            seq![PaintOp {
                x: (gutter_width(fs) + fs.cursor.col - fs.viewport.top_col) as usize,
                y: k as usize,
                ch: None,
                style: PaintStyle::CursorColumn,
            }]
        };
        assert(ops_in_area(head, fs.area_height as int, fs.area_width as int));
        lemma_ops_in_area_add(head, column_ops(fs, plan, search, k + 1), fs.area_height as int, fs.area_width as int);
    }
}

/// Every paint operation of a frame lies inside the area, once the gutter
/// fits in it (and the area has a column for the gutter's spacer): on one
/// of its rows, and left of its right edge; only a zero-width char can
/// stand on the right edge itself, as the renderer lets such a char
/// through wherever the run has reached.
pub proof fn lemma_frame_ops_inside_area<S>(
    fs: FrameSettings,
    lines: Seq<String>,
    folds: Seq<Fold>,
    spans: Seq<Vec<Span>>,
    sel: Seq<Option<(usize, usize)>>,
    conceals: Seq<Conceal>,
    signs: Seq<Sign<S>>,
    search: Seq<Vec<(usize, usize)>>,
)
    requires
        gutter_width(fs) <= fs.area_width,
        fs.gutter is Some ==> fs.area_width >= 1,
    ensures
        ops_in_area(
            frame_ops(fs, lines, folds, spans, sel, conceals, signs, frame_plan(fs, lines, folds), search),
            fs.area_height as int,
            fs.area_width as int,
        ),
{
    let plan = frame_plan(fs, lines, folds);
    lemma_plan_rows_valid(lines, folds, fs.viewport, fs.area_height as int, seg_width(fs), fs.viewport.top_row as int, 0);
    lemma_paint_from_inside(fs, lines, folds, spans, sel, conceals, signs, plan, search, 0);
    lemma_column_inside(fs, plan, search, 0);
    lemma_ops_in_area_add(
        paint_from(fs, lines, folds, spans, sel, conceals, signs, plan, search, 0),
        column_ops(fs, plan, search, 0),
        fs.area_height as int,
        fs.area_width as int,
    );
}

/// The paint operations of a frame's screen rows end with those of row
/// `k` followed by those of the rows after it: row `k`'s operations are
/// exactly [`entry_ops`] of its screen row.
pub proof fn lemma_frame_row_ops<S>(
    fs: FrameSettings,
    lines: Seq<String>,
    folds: Seq<Fold>,
    spans: Seq<Vec<Span>>,
    sel: Seq<Option<(usize, usize)>>,
    conceals: Seq<Conceal>,
    signs: Seq<Sign<S>>,
    plan: Seq<ScreenRow>,
    search: Seq<Vec<(usize, usize)>>,
    k: int,
)
    requires
        0 <= k < plan.len(),
    ensures
        (entry_ops(fs, lines, folds, spans, sel, conceals, signs, plan[k], search[k]@, k)
            + paint_from(fs, lines, folds, spans, sel, conceals, signs, plan, search, k + 1)).is_suffix_of(
            paint_from(fs, lines, folds, spans, sel, conceals, signs, plan, search, 0),
        ),
    decreases k,
{
    let w = paint_from(fs, lines, folds, spans, sel, conceals, signs, plan, search, 0);
    assert(paint_from(fs, lines, folds, spans, sel, conceals, signs, plan, search, k)
        == entry_ops(fs, lines, folds, spans, sel, conceals, signs, plan[k], search[k]@, k)
            + paint_from(fs, lines, folds, spans, sel, conceals, signs, plan, search, k + 1));
    if k == 0 {
        assert(w =~= w.subrange(0, w.len() as int));
    } else {
        lemma_frame_row_ops(fs, lines, folds, spans, sel, conceals, signs, plan, search, k - 1);
        lemma_suffix_drop(
            w,
            entry_ops(fs, lines, folds, spans, sel, conceals, signs, plan[k - 1], search[k - 1]@, k - 1),
            paint_from(fs, lines, folds, spans, sel, conceals, signs, plan, search, k),
        );
    }
}

/// The marker row of a closed fold (screen row `k`): after the gutter, every
/// column of the text area gets the row's style (the cursor line's when
/// the fold starts on the cursor row and that background is set), then
/// the label (see [`fold_label`]) is written from the text area's left
/// edge, each char at the column reached so far, stopping at the first
/// char that does not fit; every label cell lies inside the area.
pub proof fn lemma_marker_row<S>(
    fs: FrameSettings,
    lines: Seq<String>,
    folds: Seq<Fold>,
    spans: Seq<Vec<Span>>,
    sel: Seq<Option<(usize, usize)>>,
    conceals: Seq<Conceal>,
    signs: Seq<Sign<S>>,
    plan: Seq<ScreenRow>,
    search: Seq<Vec<(usize, usize)>>,
    k: int,
)
    requires
        0 <= k < plan.len(),
        plan[k] is Marker,
    ensures
        ({
            let doc = plan[k]->Marker_doc_row as int;
            let f = plan[k]->fold as int;
            let style = PaintStyle::Text(CellStyle {
                cursor_line: doc == fs.cursor.row && fs.cursor_line_enabled,
                syntax: None,
                selection: false,
                search: false,
                cursor: false,
            });
            let gw = gutter_width(fs);
            let tw = text_width(fs);
            let cells = run_cells(fold_label(lines[doc]@, folds[f].spec_line_count()), 0, 0, tw as nat);
            &&& (gutter_ops(fs, signs, doc, k)
                + Seq::new(tw as nat, |x: int| PaintOp { x: (gw + x) as usize, y: k as usize, ch: None, style })
                + Seq::new(cells.len(), |i: int| PaintOp { x: (gw + cells[i].0) as usize, y: k as usize, ch: Some(cells[i].1), style })
                + paint_from(fs, lines, folds, spans, sel, conceals, signs, plan, search, k + 1)).is_suffix_of(
                paint_from(fs, lines, folds, spans, sel, conceals, signs, plan, search, 0),
            )
            &&& forall|i: int| 0 <= i < cells.len() ==> (#[trigger] cells[i]).0 < tw
        }),
{
    lemma_frame_row_ops(fs, lines, folds, spans, sel, conceals, signs, plan, search, k);
    let doc = plan[k]->Marker_doc_row as int;
    let f = plan[k]->fold as int;
    let tw = text_width(fs);
    lemma_run_cells_bound(fold_label(lines[doc]@, folds[f].spec_line_count()), 0, 0, tw as nat);
    let g = gutter_ops(fs, signs, doc, k);
    let m = marker_ops(fs, lines, folds, doc, f, k);
    let rest = paint_from(fs, lines, folds, spans, sel, conceals, signs, plan, search, k + 1);
    assert(g + m + rest =~= (g + m) + rest);
}

/// A wrap-continuation row (screen row `k`, not the first segment of its
/// document row): the gutter shows only spaces in the gutter style across
/// its whole width, no number and no sign, and the text cells follow,
/// moved right past the gutter.
pub proof fn lemma_continuation_row<S>(
    fs: FrameSettings,
    lines: Seq<String>,
    folds: Seq<Fold>,
    spans: Seq<Vec<Span>>,
    sel: Seq<Option<(usize, usize)>>,
    conceals: Seq<Conceal>,
    signs: Seq<Sign<S>>,
    plan: Seq<ScreenRow>,
    search: Seq<Vec<(usize, usize)>>,
    k: int,
)
    requires
        0 <= k < plan.len(),
        plan[k] matches ScreenRow::Text { first, .. } && !first,
    ensures
        ({
            let doc = plan[k]->Text_doc_row as int;
            let blank = match fs.gutter {
                Some((w, _)) => Seq::new(w as nat, |x: int| PaintOp { x: x as usize, y: k as usize, ch: Some(' '), style: PaintStyle::Gutter }),
                None => Seq::empty(),
            };
            (blank + shifted(
                row_ops(row_ctx(fs, sel, plan[k], k), lines[doc]@, spans_of(spans, doc), search[k]@, conceals),
                gutter_width(fs) as usize,
            ) + paint_from(fs, lines, folds, spans, sel, conceals, signs, plan, search, k + 1)).is_suffix_of(
                paint_from(fs, lines, folds, spans, sel, conceals, signs, plan, search, 0),
            )
        }),
{
    lemma_frame_row_ops(fs, lines, folds, spans, sel, conceals, signs, plan, search, k);
}

/// The cell of the cursor-column background on screen row `k`.
pub open spec fn column_cell(fs: FrameSettings, k: int) -> PaintOp {
    PaintOp {
        x: (gutter_width(fs) + fs.cursor.col - fs.viewport.top_col) as usize,
        y: k as usize,
        ch: None,
        style: PaintStyle::CursorColumn,
    }
}

proof fn lemma_column_contains(fs: FrameSettings, plan: Seq<ScreenRow>, search: Seq<Vec<(usize, usize)>>, j: int, k: int)
    requires
        0 <= j <= k < plan.len(),
        column_shown(fs),
        !(plan[k] is Text && in_search(search[k]@, fs.cursor.col as int)),
    ensures
        exists|i: int| 0 <= i < column_ops(fs, plan, search, j).len() && #[trigger] column_ops(fs, plan, search, j)[i] == column_cell(fs, k),
    decreases k - j,
{
    let c = column_ops(fs, plan, search, j);
    if j == k {
        assert(c[0] == column_cell(fs, k));
    } else {
        lemma_column_contains(fs, plan, search, j + 1, k);
        let rest = column_ops(fs, plan, search, j + 1);
        let i = choose|i: int| 0 <= i < rest.len() && #[trigger] rest[i] == column_cell(fs, k);
        let hit = plan[j] is Text && in_search(search[j]@, fs.cursor.col as int);
        if hit {
            assert(c[i] == rest[i]);
        } else {
            assert(c[i + 1] == rest[i]);
        }
    }
}

proof fn lemma_column_cells(fs: FrameSettings, plan: Seq<ScreenRow>, search: Seq<Vec<(usize, usize)>>, j: int)
    requires
        0 <= j,
    ensures
        forall|i: int| 0 <= i < column_ops(fs, plan, search, j).len() ==> (#[trigger] column_ops(fs, plan, search, j)[i])
            == column_cell(fs, column_ops(fs, plan, search, j)[i].y as int),
    decreases plan.len() - j,
{
    if j < plan.len() && column_shown(fs) {
        lemma_column_cells(fs, plan, search, j + 1);
        let c = column_ops(fs, plan, search, j);
        let rest = column_ops(fs, plan, search, j + 1);
        let hit = plan[j] is Text && in_search(search[j]@, fs.cursor.col as int);
        assert forall|i: int| 0 <= i < c.len() implies (#[trigger] c[i]) == column_cell(fs, c[i].y as int) by {
            if hit {
                assert(c[i] == rest[i]);
            } else if i > 0 {
                assert(c[i] == rest[i - 1]);
            } else {
                assert(c[0].y == j as usize);
            }
        };
    }
}

/// The cursor-column background: when it is shown (no wrap, background
/// set, cursor column inside the text area), every screen row gets its
/// cell at the cursor's column, except a text row where a search match
/// covers that column, and nothing else is painted with it; when it is
/// not shown, nothing is.
pub proof fn lemma_cursor_column_rows(fs: FrameSettings, plan: Seq<ScreenRow>, search: Seq<Vec<(usize, usize)>>)
    requires
        plan.len() <= usize::MAX,
    ensures
        !column_shown(fs) ==> column_ops(fs, plan, search, 0).len() == 0,
        column_shown(fs) ==> forall|k: int| 0 <= k < plan.len() ==> (
            (exists|i: int| 0 <= i < column_ops(fs, plan, search, 0).len() && #[trigger] column_ops(fs, plan, search, 0)[i] == column_cell(fs, k))
                <==> !(plan[k] is Text && in_search(search[k]@, fs.cursor.col as int))),
        forall|i: int| 0 <= i < column_ops(fs, plan, search, 0).len() ==> {
            let op = #[trigger] column_ops(fs, plan, search, 0)[i];
            &&& op == column_cell(fs, op.y as int)
            &&& op.y < plan.len()
            &&& !(plan[op.y as int] is Text && in_search(search[op.y as int]@, fs.cursor.col as int))
        },
{
    lemma_column_ops_rows(fs, plan, search, 0);
    lemma_column_cells(fs, plan, search, 0);
    let c = column_ops(fs, plan, search, 0);
    if column_shown(fs) {
        assert forall|k: int| 0 <= k < plan.len() implies (
            (exists|i: int| 0 <= i < c.len() && #[trigger] c[i] == column_cell(fs, k))
                <==> !(plan[k] is Text && in_search(search[k]@, fs.cursor.col as int))) by {
            if !(plan[k] is Text && in_search(search[k]@, fs.cursor.col as int)) {
                lemma_column_contains(fs, plan, search, 0, k);
            }
            if exists|i: int| 0 <= i < c.len() && #[trigger] c[i] == column_cell(fs, k) {
                let i = choose|i: int| 0 <= i < c.len() && #[trigger] c[i] == column_cell(fs, k);
                assert(c[i].y as int == k);
            }
        };
    } else {
        assert(plan.len() == 0 || c.len() == 0);
    }
}

/// A text screen row `k` showing chars `seg_start..seg_end` of document
/// row `d`: its operations are its gutter (numbers and sign on the first
/// segment, blank on a continuation), then the row's text cells moved
/// right past the gutter. The row is laid out on screen row `k`, in the
/// text area's width, for that segment, with the cursor row and column,
/// and with the selection of document row `d` (none past the selection
/// table), whichever screen row `d` lands on.
pub proof fn lemma_text_row<S>(
    fs: FrameSettings,
    lines: Seq<String>,
    folds: Seq<Fold>,
    spans: Seq<Vec<Span>>,
    sel: Seq<Option<(usize, usize)>>,
    conceals: Seq<Conceal>,
    signs: Seq<Sign<S>>,
    plan: Seq<ScreenRow>,
    search: Seq<Vec<(usize, usize)>>,
    k: int,
)
    requires
        0 <= k < plan.len(),
        k <= usize::MAX,
        plan[k] is Text,
    ensures
        ({
            let d = plan[k]->Text_doc_row;
            let ctx = row_ctx(fs, sel, plan[k], k);
            let g = if plan[k]->first { gutter_ops(fs, signs, d as int, k) } else { blank_gutter_ops(fs, k) };
            &&& (g + shifted(
                row_ops(ctx, lines[d as int]@, spans_of(spans, d as int), search[k]@, conceals),
                gutter_width(fs) as usize,
            ) + paint_from(fs, lines, folds, spans, sel, conceals, signs, plan, search, k + 1)).is_suffix_of(
                paint_from(fs, lines, folds, spans, sel, conceals, signs, plan, search, 0),
            )
            &&& ctx.doc_row == d
            &&& ctx.y == k
            &&& ctx.width == text_width(fs)
            &&& ctx.seg_start == plan[k]->seg_start
            &&& ctx.seg_end == plan[k]->seg_end
            &&& ctx.is_last_segment == plan[k]->last
            &&& ctx.is_cursor_row == (d == fs.cursor.row)
            &&& ctx.cursor_col == fs.cursor.col
            &&& ctx.cursor_line_enabled == fs.cursor_line_enabled
            &&& ctx.search_enabled == fs.search_enabled
            &&& ctx.selection == (if d < sel.len() { sel[d as int] } else { None })
            &&& (spans_of(spans, d as int) == if d < spans.len() { spans[d as int]@ } else { Seq::empty() })
        }),
{
    lemma_frame_row_ops(fs, lines, folds, spans, sel, conceals, signs, plan, search, k);
    if text_width(fs) > 0 {
        assert(text_width(fs) <= fs.area_width);
    }
}

} // verus!
