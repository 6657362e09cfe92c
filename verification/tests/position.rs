use hjkl_buffer::Position;

#[test]
fn byte_offset_ascii() {
    assert_eq!(Position::new(0, 0).byte_offset("hello"), 0);
    assert_eq!(Position::new(0, 3).byte_offset("hello"), 3);
    assert_eq!(Position::new(0, 5).byte_offset("hello"), 5);
    // Past the end clamps at the line length.
    assert_eq!(Position::new(0, 99).byte_offset("hello"), 5);
}

#[test]
fn byte_offset_utf8() {
    // 'é' takes two bytes in UTF-8.
    let line = "tablé";
    assert_eq!(Position::new(0, 4).byte_offset(line), 4);
    assert_eq!(Position::new(0, 5).byte_offset(line), 6);
}

#[test]
fn byte_offset_wide_chars() {
    let line = "a€😀b";
    assert_eq!(Position::new(0, 1).byte_offset(line), 1);
    assert_eq!(Position::new(0, 2).byte_offset(line), 4);
    assert_eq!(Position::new(0, 3).byte_offset(line), 8);
    assert_eq!(Position::new(0, 4).byte_offset(line), 9);
    assert_eq!(Position::new(3, 0).byte_offset(""), 0);
}

#[test]
fn ord_is_row_major() {
    assert!(Position::new(0, 5) < Position::new(1, 0));
    assert!(Position::new(2, 0) > Position::new(1, 999));
    assert!(Position::new(1, 3) < Position::new(1, 4));
}

#[test]
fn ord_agrees_with_derived_cmp() {
    let ps = [Position::new(0, 0), Position::new(0, 1), Position::new(1, 0), Position::new(1, 1)];
    for a in ps {
        for b in ps {
            assert_eq!(a.partial_cmp(&b), Some(a.cmp(&b)));
            assert_eq!(a == b, (a.row, a.col) == (b.row, b.col));
        }
    }
    assert_eq!(Position::default(), Position::new(0, 0));
}
