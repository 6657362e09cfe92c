use hjkl_buffer::render::{
    decimal_chars, first_covering_span, fold_marker_label, gutter_cells, place_run, winning_sign,
};
use hjkl_buffer::search::char_ranges;
use hjkl_buffer::{
    layout_row, plan_frame, row_search_ranges, CellStyle, Conceal, Fold, PaintStyle, RowLayout,
    ScreenRow, Sign, Span, Viewport, Wrap,
};
use hjkl_buffer::{try_layout_frame, FrameSettings, Position};
use regex::Regex;

fn ctx(width: usize) -> RowLayout {
    RowLayout {
        doc_row: 0,
        y: 0,
        width,
        is_cursor_row: false,
        cursor_col: 0,
        seg_start: 0,
        seg_end: usize::MAX,
        is_last_segment: true,
        cursor_line_enabled: false,
        search_enabled: false,
        selection: None,
    }
}

#[test]
fn decimal_digits() {
    assert_eq!(decimal_chars(0), vec!['0']);
    assert_eq!(decimal_chars(907), vec!['9', '0', '7']);
    assert_eq!(decimal_chars(usize::MAX).iter().collect::<String>(), usize::MAX.to_string());
}

#[test]
fn gutter_cells_right_align_and_cut() {
    assert_eq!(gutter_cells(0, 0, 4), vec![(0, ' '), (1, ' '), (2, '1'), (3, ' ')]);
    // A number wider than the gutter is cut to `width - 1` columns.
    assert_eq!(gutter_cells(1233, 0, 3), vec![(0, '1'), (1, '2'), (2, ' ')]);
    // Width zero: only the spacer, in column 0.
    assert_eq!(gutter_cells(5, 0, 0), vec![(0, ' ')]);
    assert_eq!(gutter_cells(8, 1, 3), vec![(0, '1'), (1, '0'), (2, ' ')]);
}

#[test]
fn fold_label_forms() {
    let s: String = fold_marker_label("   ", 4).into_iter().collect();
    assert_eq!(s, "▸ 4 lines folded");
    let s: String = fold_marker_label("  fn main() {  ", 12).into_iter().collect();
    assert_eq!(s, "▸ fn main() {  (12 lines)");
    let long = "x".repeat(70);
    let s: String = fold_marker_label(&long, 2).into_iter().collect();
    assert_eq!(s, format!("▸ {}…  (2 lines)", "x".repeat(59)));
    let exact = "y".repeat(60);
    let s: String = fold_marker_label(&exact, 2).into_iter().collect();
    assert_eq!(s, format!("▸ {}  (2 lines)", exact));
}

#[test]
fn place_run_stops_when_a_char_does_not_fit() {
    let label: Vec<char> = "a日b".chars().collect();
    assert_eq!(place_run(&label, 4), vec![(0, 'a'), (1, '日'), (3, 'b')]);
    assert_eq!(place_run(&label, 2), vec![(0, 'a')]);
    assert_eq!(place_run(&label, 0), vec![]);
}

#[test]
fn first_covering_span_wins() {
    let spans = [Span::new(0, 4, 1), Span::new(2, 6, 2), Span::new(3, 4, 3), Span::new(3, 4, 4)];
    assert_eq!(first_covering_span(&spans, 3), Some(0));
    assert_eq!(first_covering_span(&spans, 5), Some(1));
    assert_eq!(first_covering_span(&spans, 6), None);
    assert_eq!(first_covering_span(&[], 0), None);
}

#[test]
fn winning_sign_by_priority() {
    let signs = [
        Sign { row: 2, ch: 'a', style: (), priority: 5 },
        Sign { row: 2, ch: 'b', style: (), priority: 7 },
        Sign { row: 2, ch: 'c', style: (), priority: 7 },
        Sign { row: 2, ch: 'd', style: (), priority: 1 },
    ];
    assert_eq!(winning_sign(&signs, 2), Some(2));
    assert_eq!(winning_sign(&signs, 3), None);
}

#[test]
fn search_ranges_are_char_columns() {
    let re = Regex::new("é+").unwrap();
    assert_eq!(row_search_ranges(Some(&re), "aéé b é"), vec![(1, 3), (6, 7)]);
    assert_eq!(row_search_ranges(None, "aéé"), vec![]);
    assert_eq!(char_ranges("aé€x", &vec![(0, 1), (1, 3), (3, 7)]), vec![(0, 1), (1, 2), (2, 4)]);
}

#[test]
fn layout_row_plain_text_and_clip() {
    let ops = layout_row(&ctx(3), "abcd", &[], &vec![], &[]);
    let cells: Vec<(usize, Option<char>)> = ops.iter().map(|o| (o.x, o.ch)).collect();
    assert_eq!(cells, vec![(0, Some('a')), (1, Some('b')), (2, Some('c'))]);
}

#[test]
fn layout_row_segment_start_skips_chars() {
    let mut c = ctx(10);
    c.seg_start = 2;
    c.seg_end = 4;
    let ops = layout_row(&c, "abcdef", &[], &vec![], &[]);
    let cells: Vec<(usize, Option<char>)> = ops.iter().map(|o| (o.x, o.ch)).collect();
    assert_eq!(cells, vec![(0, Some('c')), (1, Some('d'))]);
}

#[test]
fn layout_row_tab_stops_follow_line_columns() {
    // 'ab' takes columns 0-1, so the tab fills columns 2-3.
    let ops = layout_row(&ctx(10), "ab\tc", &[], &vec![], &[]);
    let cells: Vec<(usize, Option<char>)> = ops.iter().map(|o| (o.x, o.ch)).collect();
    assert_eq!(cells, vec![(0, Some('a')), (1, Some('b')), (2, Some(' ')), (3, Some(' ')), (4, Some('c'))]);
}

#[test]
fn layout_row_conceal_and_cursor_placeholder() {
    let mut c = ctx(10);
    c.is_cursor_row = true;
    c.cursor_col = 5;
    c.cursor_line_enabled = true;
    let conceals = [Conceal { row: 0, start_byte: 1, end_byte: 4, replacement: "*".to_string() }];
    let ops = layout_row(&c, "abcde", &[], &vec![], &conceals);
    // Ten cursor-line fills come first.
    assert_eq!(ops.iter().take(10).filter(|o| o.ch.is_none()).count(), 10);
    let cells: Vec<(usize, Option<char>)> = ops[10..].iter().map(|o| (o.x, o.ch)).collect();
    assert_eq!(cells, vec![(0, Some('a')), (1, Some('*')), (2, Some('e')), (5, Some(' '))]);
    assert_eq!(
        ops.last().unwrap().style,
        PaintStyle::Text(CellStyle { cursor_line: true, syntax: None, selection: false, search: false, cursor: true })
    );
}

#[test]
fn layout_row_conceal_of_another_row_is_ignored() {
    let conceals = [Conceal { row: 1, start_byte: 0, end_byte: 2, replacement: "*".to_string() }];
    let ops = layout_row(&ctx(10), "ab", &[], &vec![], &conceals);
    let cells: Vec<Option<char>> = ops.iter().map(|o| o.ch).collect();
    assert_eq!(cells, vec![Some('a'), Some('b')]);
}

#[test]
fn plan_skips_hidden_rows_and_marks_closed_folds() {
    let lines: Vec<String> = ["a", "b", "c", "d", "e"].iter().map(|s| s.to_string()).collect();
    let folds = [Fold { start_row: 1, end_row: 2, closed: true }];
    let vp = Viewport { top_row: 0, top_col: 0, width: 10, height: 5, wrap: Wrap::Off, text_width: 10 };
    let plan = plan_frame(&lines, &folds, &vp, 5, 10);
    assert_eq!(plan.len(), 4);
    assert_eq!(plan[1], ScreenRow::Marker { doc_row: 1, fold: 0 });
    assert!(matches!(plan[2], ScreenRow::Text { doc_row: 3, .. }));
    // Starting inside a closed fold skips its hidden rows.
    let vp2 = Viewport { top_row: 2, ..vp };
    let plan2 = plan_frame(&lines, &folds, &vp2, 5, 10);
    assert!(matches!(plan2[0], ScreenRow::Text { doc_row: 3, .. }));
}

#[test]
fn fold_helpers() {
    let f = Fold { start_row: 2, end_row: 5, closed: true };
    assert_eq!(f.line_count(), 4);
    assert!(!f.hides(2));
    assert!(f.hides(3) && f.hides(5));
    assert!(!f.hides(6));
    assert!(!Fold { closed: false, ..f }.hides(3));
}

#[test]
fn layout_row_empty_conceal_hides_nothing() {
    let conceals = [Conceal { row: 0, start_byte: 0, end_byte: 0, replacement: String::new() }];
    let ops = layout_row(&ctx(10), "ab", &[], &vec![], &conceals);
    let cells: Vec<(usize, Option<char>)> = ops.iter().map(|o| (o.x, o.ch)).collect();
    assert_eq!(cells, vec![(0, Some('a')), (1, Some('b'))]);
    let conceals = [Conceal { row: 0, start_byte: 1, end_byte: 0, replacement: "X".to_string() }];
    let ops = layout_row(&ctx(10), "ab", &[], &vec![], &conceals);
    let cells: Vec<(usize, Option<char>)> = ops.iter().map(|o| (o.x, o.ch)).collect();
    assert_eq!(cells, vec![(0, Some('a')), (1, Some('X')), (2, Some('b'))]);
}

#[test]
fn try_layout_frame_refuses_overflowing_line_numbers() {
    let lines = vec!["a".to_string()];
    let vp = Viewport { top_row: 0, top_col: 0, width: 10, height: 1, wrap: Wrap::Off, text_width: 10 };
    let mut fs = FrameSettings {
        cursor: Position::new(0, 0),
        viewport: vp,
        area_width: 10,
        area_height: 1,
        gutter: Some((3, usize::MAX)),
        cursor_line_enabled: false,
        cursor_column_enabled: false,
        search_enabled: false,
    };
    let none: Vec<Sign<()>> = Vec::new();
    assert!(try_layout_frame(&fs, &lines, &[], &[], &[], &[], &none, None).is_none());
    fs.gutter = Some((3, usize::MAX - 1));
    assert!(try_layout_frame(&fs, &lines, &[], &[], &[], &[], &none, None).is_some());
    let folds = [Fold { start_row: 0, end_row: usize::MAX, closed: false }];
    assert!(try_layout_frame(&fs, &lines, &folds, &[], &[], &[], &none, None).is_none());
}

#[test]
fn frame_ops_stay_inside_the_area() {
    let lines = vec![
        "\tabcdefghijklmnop".to_string(),
        "short".to_string(),
        "x".to_string(),
        "hidden".to_string(),
        "after fold".to_string(),
    ];
    let folds = [Fold { start_row: 2, end_row: 3, closed: true }];
    let conceals = vec![Conceal { row: 1, start_byte: 0, end_byte: 2, replacement: "LONGREPLACEMENT".to_string() }];
    let signs = vec![Sign { row: 0, ch: 'E', style: (), priority: 1 }];
    let re = Regex::new("ab").unwrap();
    for wrap in [Wrap::Off, Wrap::Char, Wrap::Word] {
        let vp = Viewport { top_row: 0, top_col: 0, width: 9, height: 4, wrap, text_width: 0 };
        let fs = FrameSettings {
            cursor: Position::new(1, 2),
            viewport: vp,
            area_width: 9,
            area_height: 4,
            gutter: Some((3, 0)),
            cursor_line_enabled: true,
            cursor_column_enabled: true,
            search_enabled: true,
        };
        let ops = try_layout_frame(&fs, &lines, &folds, &[], &[], &conceals, &signs, Some(&re)).unwrap();
        assert!(!ops.is_empty());
        for op in &ops {
            assert!(op.x < 9, "{:?}", op);
            assert!(op.y < 4, "{:?}", op);
        }
    }
}

#[test]
fn layout_row_tab_reaches_the_next_stop_from_any_column() {
    for line in ["\tx", "ab\tx", "abc\tx"] {
        let ops = layout_row(&ctx(10), line, &[], &vec![], &[]);
        let x = ops.iter().find(|o| o.ch == Some('x')).unwrap();
        assert_eq!(x.x, 4, "{line:?}");
    }
    // A tab at column 4 takes a full stop of four cells.
    let ops = layout_row(&ctx(10), "abcd\tx", &[], &vec![], &[]);
    assert_eq!(ops.iter().filter(|o| o.ch == Some(' ')).count(), 4);
    assert_eq!(ops.iter().find(|o| o.ch == Some('x')).unwrap().x, 8);
}

#[test]
fn layout_row_conceal_hides_exactly_its_byte_range() {
    // "é" takes bytes 1..3; the conceal covers bytes 1..4, so 'é' and 'b' hide.
    let conceals = [Conceal { row: 0, start_byte: 1, end_byte: 4, replacement: "#".to_string() }];
    let ops = layout_row(&ctx(10), "aébc", &[], &vec![], &conceals);
    let cells: Vec<(usize, Option<char>)> = ops.iter().map(|o| (o.x, o.ch)).collect();
    assert_eq!(cells, vec![(0, Some('a')), (1, Some('#')), (2, Some('c'))]);
}
