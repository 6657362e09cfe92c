use hjkl_buffer::is_keyword_char;

#[test]
fn iskeyword_alphabetic_via_at() {
    assert!(is_keyword_char('a', "@"));
    assert!(is_keyword_char('Z', "@"));
    assert!(!is_keyword_char('1', "@"));
}

#[test]
fn iskeyword_numeric_range() {
    assert!(is_keyword_char('0', "48-57"));
    assert!(is_keyword_char('9', "48-57"));
    assert!(!is_keyword_char('a', "48-57"));
}

#[test]
fn iskeyword_literal_punctuation() {
    assert!(is_keyword_char('_', "_"));
    assert!(!is_keyword_char('.', "_"));
}

#[test]
fn iskeyword_default_spec() {
    // vim's default `@,48-57,_,192-255`.
    let spec = "@,48-57,_,192-255";
    assert!(is_keyword_char('a', spec));
    assert!(is_keyword_char('5', spec));
    assert!(is_keyword_char('_', spec));
    assert!(!is_keyword_char(' ', spec));
    assert!(!is_keyword_char('.', spec));
}

#[test]
fn iskeyword_bare_number_is_a_char_code() {
    // "5" names code 5, not the digit '5'.
    assert!(!is_keyword_char('5', "5"));
    assert!(is_keyword_char('\u{5}', "5"));
    assert!(is_keyword_char('5', "53"));
}

#[test]
fn iskeyword_tokens_are_trimmed_and_empty_tokens_ignored() {
    assert!(is_keyword_char('_', " , _ ,"));
    assert!(is_keyword_char('0', ",,\t48-57\n"));
    assert!(!is_keyword_char(' ', ", ,"));
    assert!(!is_keyword_char(',', ",,"));
}

#[test]
fn iskeyword_plus_sign_and_overflow() {
    // `+48-+57` parses as a range, like `str::parse::<u32>` would.
    assert!(is_keyword_char('1', "+48-+57"));
    // Out of u32 range: neither a range nor a code, and not a single char.
    assert!(!is_keyword_char('1', "48-99999999999"));
    assert!(!is_keyword_char('a', "99999999999"));
}

#[test]
fn iskeyword_reversed_range_is_empty() {
    assert!(!is_keyword_char('5', "57-48"));
}

#[test]
fn iskeyword_dash_alone_is_literal() {
    assert!(is_keyword_char('-', "-"));
    assert!(!is_keyword_char('-', "a-b"));
    assert!(!is_keyword_char('a', "a-b"));
}

#[test]
fn iskeyword_unknown_tokens_ignored() {
    assert!(!is_keyword_char('a', "abc"));
    assert!(is_keyword_char('a', "abc,@"));
}

#[test]
fn iskeyword_union_of_joined_specs() {
    for c in ['a', '5', '_', ' ', '.', '\u{e9}'] {
        let joined = is_keyword_char(c, "@,_");
        assert_eq!(joined, is_keyword_char(c, "@") || is_keyword_char(c, "_"));
    }
}
