use hjkl_buffer::{
    layout_frame, CellStyle, Conceal, Fold, FrameSettings, PaintOp, PaintStyle, Position, Sign,
    Span, Viewport, Wrap,
};
use regex::Regex;

/// A cell grid that records, per cell, the symbol and every style applied.
struct Grid {
    width: usize,
    height: usize,
    cells: Vec<(char, Vec<PaintStyle>)>,
}

impl Grid {
    fn apply(width: usize, height: usize, ops: &[PaintOp]) -> Grid {
        let mut g = Grid { width, height, cells: vec![(' ', Vec::new()); width * height] };
        for op in ops {
            if op.x < g.width && op.y < g.height {
                let cell = &mut g.cells[op.y * g.width + op.x];
                if let Some(ch) = op.ch {
                    cell.0 = ch;
                }
                cell.1.push(op.style);
            }
        }
        g
    }

    fn sym(&self, x: usize, y: usize) -> char {
        self.cells[y * self.width + x].0
    }

    fn styles(&self, x: usize, y: usize) -> &[PaintStyle] {
        &self.cells[y * self.width + x].1
    }

    /// The layers of the last text style written to the cell.
    fn text(&self, x: usize, y: usize) -> Option<CellStyle> {
        self.styles(x, y).iter().rev().find_map(|s| match s {
            PaintStyle::Text(c) => Some(*c),
            _ => None,
        })
    }

    fn has_selection(&self, x: usize, y: usize) -> bool {
        self.styles(x, y).iter().any(|s| matches!(s, PaintStyle::Text(c) if c.selection))
    }

    fn has_search(&self, x: usize, y: usize) -> bool {
        self.styles(x, y).iter().any(|s| matches!(s, PaintStyle::Text(c) if c.search))
    }

    fn has_cursor(&self, x: usize, y: usize) -> bool {
        self.styles(x, y).iter().any(|s| matches!(s, PaintStyle::Text(c) if c.cursor))
    }

    fn syntax(&self, x: usize, y: usize) -> Option<u32> {
        self.styles(x, y).iter().rev().find_map(|s| match s {
            PaintStyle::Text(c) => c.syntax,
            _ => None,
        })
    }
}

/// The inputs of one frame, with the defaults the view tests start from.
struct View {
    lines: Vec<String>,
    cursor: Position,
    folds: Vec<Fold>,
    viewport: Viewport,
    selection: Vec<Option<(usize, usize)>>,
    gutter: Option<(u16, usize)>,
    cursor_line: bool,
    cursor_column: bool,
    search: bool,
    signs: Vec<Sign<u8>>,
    conceals: Vec<Conceal>,
    spans: Vec<Vec<Span>>,
    pattern: Option<Regex>,
}

fn vp(width: u16, height: u16) -> Viewport {
    Viewport { top_row: 0, top_col: 0, width, height, wrap: Wrap::Off, text_width: width }
}

fn view(text: &str, viewport: Viewport) -> View {
    View {
        lines: text.split('\n').map(|s| s.to_string()).collect(),
        cursor: Position::new(0, 0),
        folds: Vec::new(),
        viewport,
        selection: Vec::new(),
        gutter: None,
        cursor_line: false,
        cursor_column: false,
        search: false,
        signs: Vec::new(),
        conceals: Vec::new(),
        spans: Vec::new(),
        pattern: None,
    }
}

fn run(v: &View, w: u16, h: u16) -> Grid {
    let fs = FrameSettings {
        cursor: v.cursor,
        viewport: v.viewport,
        area_width: w,
        area_height: h,
        gutter: v.gutter,
        cursor_line_enabled: v.cursor_line,
        cursor_column_enabled: v.cursor_column,
        search_enabled: v.search,
    };
    let ops = layout_frame(
        &fs,
        &v.lines,
        &v.folds,
        &v.spans,
        &v.selection,
        &v.conceals,
        &v.signs,
        v.pattern.as_ref(),
    );
    Grid::apply(w as usize, h as usize, &ops)
}

#[test]
fn renders_plain_chars_into_terminal_buffer() {
    let v = view("hello\nworld", vp(20, 5));
    let term = run(&v, 20, 5);
    assert_eq!(term.sym(0, 0), 'h');
    assert_eq!(term.sym(4, 0), 'o');
    assert_eq!(term.sym(0, 1), 'w');
    assert_eq!(term.sym(4, 1), 'd');
}

#[test]
fn cursor_cell_gets_reversed_style() {
    let mut v = view("abc", vp(10, 1));
    v.cursor = Position::new(0, 1);
    let term = run(&v, 10, 1);
    assert!(term.has_cursor(1, 0));
    assert!(!term.has_cursor(0, 0));
}

#[test]
fn selection_bg_applies_only_to_selected_cells() {
    let mut v = view("abcdef", vp(10, 1));
    v.selection = vec![Some((1, 3))];
    let term = run(&v, 10, 1);
    assert!(!term.has_selection(0, 0));
    for x in 1..=3 {
        assert!(term.has_selection(x, 0));
    }
    assert!(!term.has_selection(4, 0));
}

#[test]
fn syntax_span_fg_resolves_via_table() {
    let mut v = view("SELECT foo", vp(20, 1));
    v.spans = vec![vec![Span::new(0, 6, 7)]];
    let term = run(&v, 20, 1);
    for x in 0..6 {
        assert_eq!(term.syntax(x, 0), Some(7));
    }
    assert_eq!(term.syntax(6, 0), None);
}

#[test]
fn gutter_renders_right_aligned_line_numbers() {
    let mut v = view("a\nb\nc", vp(10, 3));
    v.gutter = Some((4, 0));
    let term = run(&v, 10, 3);
    // Width 4 = 3 number cells + 1 spacer; right-aligned "  1".
    assert_eq!(term.sym(2, 0), '1');
    assert_eq!(term.styles(2, 0), &[PaintStyle::Gutter]);
    assert_eq!(term.sym(2, 1), '2');
    assert_eq!(term.sym(2, 2), '3');
    // Text shifted right past the gutter.
    assert_eq!(term.sym(4, 0), 'a');
}

#[test]
fn gutter_line_offset_shifts_numbers() {
    let mut v = view("a\nb", vp(10, 2));
    v.gutter = Some((5, 99));
    let term = run(&v, 10, 2);
    assert_eq!(term.sym(1, 0), '1');
    assert_eq!(term.sym(2, 0), '0');
    assert_eq!(term.sym(3, 0), '0');
    assert_eq!(term.sym(3, 1), '1');
    assert_eq!(term.sym(5, 1), 'b');
}

#[test]
fn search_bg_paints_match_cells() {
    let mut v = view("foo bar foo", vp(20, 1));
    v.search = true;
    v.pattern = Some(Regex::new("foo").unwrap());
    let term = run(&v, 20, 1);
    for x in 0..3 {
        assert!(term.has_search(x, 0));
    }
    // " bar " between matches stays without the search background.
    assert!(!term.has_search(3, 0));
    for x in 8..11 {
        assert!(term.has_search(x, 0));
    }
}

#[test]
fn search_bg_survives_cursorcolumn_overlay() {
    let mut v = view("foo bar foo", vp(20, 1));
    v.search = true;
    v.cursor_column = true;
    v.pattern = Some(Regex::new("foo").unwrap());
    // Cursor on column 1, inside the first match: search wins.
    v.cursor = Position::new(0, 1);
    let term = run(&v, 20, 1);
    assert!(term.has_search(1, 0));
    assert!(!term.styles(1, 0).contains(&PaintStyle::CursorColumn));
}

#[test]
fn cursorcolumn_paints_rows_without_a_match() {
    let mut v = view("foo\nbar\nfoo", vp(10, 3));
    v.search = true;
    v.cursor_column = true;
    v.pattern = Some(Regex::new("foo").unwrap());
    v.cursor = Position::new(1, 1);
    let term = run(&v, 10, 3);
    assert!(!term.styles(1, 0).contains(&PaintStyle::CursorColumn));
    assert!(term.styles(1, 1).contains(&PaintStyle::CursorColumn));
    assert!(!term.styles(1, 2).contains(&PaintStyle::CursorColumn));
    assert!(!term.styles(0, 1).contains(&PaintStyle::CursorColumn));
}

#[test]
fn highest_priority_sign_wins_per_row_and_overwrites_gutter() {
    let mut v = view("a\nb\nc", vp(10, 3));
    v.gutter = Some((3, 0));
    v.signs = vec![
        Sign { row: 0, ch: 'W', style: 0, priority: 1 },
        Sign { row: 0, ch: 'E', style: 1, priority: 2 },
    ];
    let term = run(&v, 10, 3);
    assert_eq!(term.sym(0, 0), 'E');
    assert_eq!(term.styles(0, 0).last(), Some(&PaintStyle::Sign(1)));
    // Row 1 has no sign: the leftmost cell stays gutter content.
    assert_ne!(term.sym(0, 1), 'E');
}

#[test]
fn equal_priority_signs_last_one_wins() {
    let mut v = view("a", vp(10, 1));
    v.gutter = Some((3, 0));
    v.signs = vec![
        Sign { row: 0, ch: 'X', style: 0, priority: 3 },
        Sign { row: 0, ch: 'Y', style: 0, priority: 3 },
        Sign { row: 1, ch: 'Z', style: 0, priority: 9 },
    ];
    let term = run(&v, 10, 1);
    assert_eq!(term.sym(0, 0), 'Y');
}

#[test]
fn conceal_replaces_byte_range() {
    let mut v = view("see https://example.com end", vp(30, 1));
    v.conceals = vec![Conceal {
        row: 0,
        start_byte: 4,
        end_byte: 4 + "https://example.com".len(),
        replacement: "🔗".to_string(),
    }];
    let term = run(&v, 30, 1);
    assert_eq!(term.sym(0, 0), 's');
    assert_eq!(term.sym(3, 0), ' ');
    // The link emoji is two cells wide; its first cell holds it.
    assert_eq!(term.sym(4, 0), '🔗');
    // The text after the concealed range follows the replacement.
    assert_eq!(term.sym(6, 0), ' ');
    assert_eq!(term.sym(7, 0), 'e');
}

#[test]
fn closed_fold_collapses_rows_and_paints_marker() {
    let mut v = view("a\nb\nc\nd\ne", vp(30, 5));
    v.folds = vec![Fold { start_row: 1, end_row: 3, closed: true }];
    let term = run(&v, 30, 5);
    assert_eq!(term.sym(0, 0), 'a');
    assert_eq!(term.sym(0, 1), '▸');
    assert_eq!(term.sym(2, 1), 'b');
    assert_eq!(term.sym(0, 2), 'e');
}

#[test]
fn fold_marker_label_counts_lines() {
    let mut v = view("  x\nb\nc", vp(30, 2));
    v.folds = vec![Fold { start_row: 0, end_row: 2, closed: true }];
    let term = run(&v, 30, 2);
    let row: String = (0..15).map(|x| term.sym(x, 0)).collect();
    assert_eq!(row, "▸ x  (3 lines) ");
}

#[test]
fn open_fold_renders_normally() {
    let mut v = view("a\nb\nc", vp(5, 3));
    v.folds = vec![Fold { start_row: 0, end_row: 2, closed: false }];
    let term = run(&v, 5, 3);
    assert_eq!(term.sym(0, 0), 'a');
    assert_eq!(term.sym(0, 1), 'b');
    assert_eq!(term.sym(0, 2), 'c');
}

#[test]
fn horizontal_scroll_clips_left_chars() {
    let mut viewport = vp(4, 1);
    viewport.top_col = 3;
    let v = view("abcdefgh", viewport);
    let term = run(&v, 4, 1);
    assert_eq!(term.sym(0, 0), 'd');
    assert_eq!(term.sym(3, 0), 'g');
}

fn wrap_vp(width: u16, height: u16, wrap: Wrap, text_width: u16) -> Viewport {
    Viewport { top_row: 0, top_col: 0, width, height, wrap, text_width }
}

#[test]
fn wrap_char_paints_continuation_rows() {
    let v = view("abcdefghij", wrap_vp(4, 3, Wrap::Char, 4));
    let term = run(&v, 4, 3);
    assert_eq!(term.sym(0, 0), 'a');
    assert_eq!(term.sym(3, 0), 'd');
    assert_eq!(term.sym(0, 1), 'e');
    assert_eq!(term.sym(3, 1), 'h');
    assert_eq!(term.sym(0, 2), 'i');
    assert_eq!(term.sym(1, 2), 'j');
}

#[test]
fn wrap_char_gutter_blank_on_continuation() {
    let mut v = view("abcdefgh", wrap_vp(6, 3, Wrap::Char, 3));
    v.gutter = Some((3, 0));
    let term = run(&v, 6, 3);
    assert_eq!(term.sym(1, 0), '1');
    assert_eq!(term.sym(3, 0), 'a');
    for x in 0..2 {
        assert_eq!(term.sym(x, 1), ' ');
        assert_eq!(term.styles(x, 1), &[PaintStyle::Gutter]);
    }
    assert_eq!(term.sym(3, 1), 'd');
    assert_eq!(term.sym(5, 1), 'f');
}

#[test]
fn wrap_char_cursor_lands_on_correct_segment() {
    let mut v = view("abcdefghij", wrap_vp(4, 3, Wrap::Char, 4));
    // Cursor on 'g' (col 6) lands on row 1, col 2.
    v.cursor = Position::new(0, 6);
    let term = run(&v, 4, 3);
    assert!(term.has_cursor(2, 1));
}

#[test]
fn wrap_char_eol_cursor_placeholder_on_last_segment() {
    let mut v = view("abcdef", wrap_vp(4, 3, Wrap::Char, 4));
    v.cursor = Position::new(0, 6);
    let term = run(&v, 4, 3);
    // Last segment is row 1 ("ef"); placeholder at x = 6 - 4 = 2.
    assert!(term.has_cursor(2, 1));
    assert_eq!(term.sym(2, 1), ' ');
}

#[test]
fn wrap_word_breaks_at_whitespace() {
    let v = view("alpha beta gamma", wrap_vp(8, 3, Wrap::Word, 8));
    let term = run(&v, 8, 3);
    assert_eq!(term.sym(0, 0), 'a');
    assert_eq!(term.sym(4, 0), 'a');
    assert_eq!(term.sym(0, 1), 'b');
    assert_eq!(term.sym(3, 1), 'a');
    assert_eq!(term.sym(0, 2), 'g');
    assert_eq!(term.sym(4, 2), 'a');
}

#[test]
fn empty_spans_param_renders_default_style() {
    let v = view("hello", vp(10, 1));
    let term = run(&v, 10, 1);
    assert_eq!(term.sym(0, 0), 'h');
    assert_eq!(term.syntax(0, 0), None);
}

#[test]
fn spans_param_paints_styled_byte_range() {
    let mut v = view("abcdef", vp(10, 1));
    v.spans = vec![vec![Span::new(0, 3, 3)]];
    let term = run(&v, 10, 1);
    for x in 0..3 {
        assert_eq!(term.syntax(x, 0), Some(3));
    }
    assert_ne!(term.syntax(3, 0), Some(3));
}

#[test]
fn spans_param_handles_per_row_overlay() {
    let mut v = view("abc\ndef", vp(10, 2));
    v.spans = vec![vec![Span::new(0, 3, 1)], vec![Span::new(0, 3, 2)]];
    let term = run(&v, 10, 2);
    assert_eq!(term.syntax(0, 0), Some(1));
    assert_eq!(term.syntax(0, 1), Some(2));
}

#[test]
fn spans_param_rows_beyond_get_no_styling() {
    let mut v = view("abc\ndef\nghi", vp(10, 3));
    v.spans = vec![vec![Span::new(0, 3, 0)]];
    let term = run(&v, 10, 3);
    assert_eq!(term.syntax(0, 0), Some(0));
    assert_eq!(term.syntax(0, 1), None);
    assert_eq!(term.syntax(0, 2), None);
}

#[test]
fn first_containing_span_wins() {
    let mut v = view("// TODO x", vp(20, 1));
    v.spans = vec![vec![Span::new(3, 7, 2), Span::new(0, 9, 1)]];
    let term = run(&v, 20, 1);
    assert_eq!(term.syntax(0, 0), Some(1));
    assert_eq!(term.syntax(3, 0), Some(2));
    assert_eq!(term.syntax(6, 0), Some(2));
    assert_eq!(term.syntax(7, 0), Some(1));
    v.spans = vec![vec![Span::new(0, 9, 1), Span::new(3, 7, 2)]];
    let term = run(&v, 20, 1);
    assert_eq!(term.syntax(3, 0), Some(1));
    assert_eq!(term.syntax(6, 0), Some(1));
}

#[test]
fn search_pattern_none_disables_hlsearch() {
    let mut v = view("foo bar foo", vp(20, 1));
    v.search = true;
    let term = run(&v, 20, 1);
    for x in 0..11 {
        assert!(!term.has_search(x, 0));
    }
}

#[test]
fn search_pattern_regex_paints_match_bg() {
    let mut v = view("xyz foo xyz", vp(20, 1));
    v.search = true;
    v.pattern = Some(Regex::new("foo").unwrap());
    let term = run(&v, 20, 1);
    assert!(!term.has_search(3, 0));
    for x in 4..7 {
        assert!(term.has_search(x, 0));
    }
    assert!(!term.has_search(7, 0));
}

#[test]
fn search_pattern_unicode_columns_are_charwise() {
    let mut v = view("tablé foo", vp(20, 1));
    v.search = true;
    v.pattern = Some(Regex::new("foo").unwrap());
    let term = run(&v, 20, 1);
    // "tablé" is 5 chars + space = 6, then "foo" at 6..9.
    assert!(term.has_search(6, 0));
    assert!(term.has_search(8, 0));
    assert!(!term.has_search(5, 0));
}

#[test]
fn spans_param_clamps_short_row_overlay() {
    let mut v = view("abc", vp(10, 1));
    v.spans = vec![vec![Span::new(0, 100, 0)]];
    let term = run(&v, 10, 1);
    for x in 0..3 {
        assert_eq!(term.syntax(x, 0), Some(0));
    }
}

#[test]
fn spans_and_search_pattern_compose() {
    let mut v = view("foo", vp(10, 1));
    v.search = true;
    v.spans = vec![vec![Span::new(0, 3, 0)]];
    v.pattern = Some(Regex::new("foo").unwrap());
    let term = run(&v, 10, 1);
    let cell = term.text(1, 0).unwrap();
    assert_eq!(cell.syntax, Some(0));
    assert!(cell.search);
}

#[test]
fn tabs_expand_to_the_next_stop() {
    let v = view("a\tb", vp(10, 1));
    let term = run(&v, 10, 1);
    assert_eq!(term.sym(0, 0), 'a');
    for x in 1..4 {
        assert_eq!(term.sym(x, 0), ' ');
        assert!(term.text(x, 0).is_some());
    }
    assert_eq!(term.sym(4, 0), 'b');
}

#[test]
fn cursor_line_background_fills_the_row() {
    let mut v = view("ab\ncd", vp(6, 2));
    v.cursor_line = true;
    v.cursor = Position::new(1, 0);
    let term = run(&v, 6, 2);
    for x in 0..6 {
        assert!(term.text(x, 1).unwrap().cursor_line);
    }
    assert!(term.text(0, 0).map_or(true, |c| !c.cursor_line));
}

#[test]
fn rows_stop_at_the_area_height() {
    let v = view("a\nb\nc\nd", vp(4, 2));
    let fs = FrameSettings {
        cursor: Position::new(0, 0),
        viewport: v.viewport,
        area_width: 4,
        area_height: 2,
        gutter: None,
        cursor_line_enabled: false,
        cursor_column_enabled: false,
        search_enabled: false,
    };
    let plan = hjkl_buffer::plan_frame(&v.lines, &v.folds, &fs.viewport, 2, 4);
    assert_eq!(plan.len(), 2);
}
