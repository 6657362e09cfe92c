use hjkl_buffer::{wrap_segments, Wrap};

#[test]
fn wrap_segments_char_breaks_at_width() {
    let segs = wrap_segments("abcdefghij", 4, Wrap::Char);
    assert_eq!(segs, vec![(0, 4), (4, 8), (8, 10)]);
}

#[test]
fn wrap_segments_word_backs_up_to_whitespace() {
    let segs = wrap_segments("alpha beta gamma", 8, Wrap::Word);
    // First segment "alpha " ends after the space at idx 5.
    assert_eq!(segs[0], (0, 6));
    // Second segment "beta " ends after the space at idx 10.
    assert_eq!(segs[1], (6, 11));
    assert_eq!(segs[2], (11, 16));
}

#[test]
fn wrap_segments_word_falls_back_to_char_for_long_runs() {
    let segs = wrap_segments("supercalifragilistic", 5, Wrap::Word);
    // No whitespace anywhere: a hard char break.
    assert_eq!(segs, vec![(0, 5), (5, 10), (10, 15), (15, 20)]);
}

#[test]
fn wrap_segments_empty_line_and_off_mode() {
    assert_eq!(wrap_segments("", 4, Wrap::Char), vec![(0, 0)]);
    assert_eq!(wrap_segments("abcdef", 2, Wrap::Off), vec![(0, 6)]);
}

#[test]
fn wrap_segments_zero_width_acts_as_one() {
    assert_eq!(wrap_segments("abc", 0, Wrap::Char), vec![(0, 1), (1, 2), (2, 3)]);
}

#[test]
fn wrap_segments_wide_chars_count_two_columns() {
    // Each CJK char is two columns wide.
    assert_eq!(wrap_segments("日本語", 4, Wrap::Char), vec![(0, 2), (2, 3)]);
    // A char wider than the row still gets a row of its own.
    assert_eq!(wrap_segments("日本", 1, Wrap::Char), vec![(0, 1), (1, 2)]);
}

#[test]
fn wrap_segments_tile_the_line() {
    let line = "the quick brown fox jumps over the lazy dog";
    for w in 1..12u16 {
        for mode in [Wrap::Char, Wrap::Word] {
            let segs = wrap_segments(line, w, mode);
            assert_eq!(segs[0].0, 0);
            assert_eq!(segs.last().unwrap().1, line.chars().count());
            for pair in segs.windows(2) {
                assert_eq!(pair[0].1, pair[1].0);
            }
            for &(a, b) in &segs {
                assert!(a < b);
                assert!(b - a == 1 || b - a <= w as usize);
            }
        }
    }
}
