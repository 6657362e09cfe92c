use hjkl_buffer::Span;

#[test]
fn len_and_is_empty() {
    assert_eq!(Span::new(0, 5, 0).len(), 5);
    assert!(Span::new(3, 3, 0).is_empty());
    assert!(Span::new(7, 5, 0).is_empty());
}

#[test]
fn reversed_span_has_zero_len() {
    let s = Span::new(7, 5, 9);
    assert_eq!(s.len(), 0);
    assert_eq!(s.style, 9);
    assert!(!Span::new(2, 3, 0).is_empty());
    assert_eq!(Span::new(2, 3, 0).len(), 1);
}
