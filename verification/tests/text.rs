use spandoc_core::text::{
    chars_of, drop_whitespace, is_whitespace, matches_at, skip_whitespace, trim,
};

#[test]
fn white_space_is_what_the_standard_library_calls_so() {
    let mut n: u32 = 0;
    let mut seen = 0;
    while n <= 0x10FFFF {
        if let Some(c) = char::from_u32(n) {
            assert_eq!(is_whitespace(c), c.is_whitespace(), "U+{:04X}", n);
            if is_whitespace(c) {
                seen += 1;
            }
        }
        n += 1;
    }
    assert_eq!(seen, 25);
}

#[test]
fn chars_of_gives_every_character() {
    assert_eq!(chars_of(""), Vec::<char>::new());
    assert_eq!(chars_of("a{\u{e9}}"), vec!['a', '{', '\u{e9}', '}']);
}

#[test]
fn trim_takes_white_space_from_both_ends() {
    assert_eq!(trim("  a b \t\n"), "a b");
    assert_eq!(trim("a"), "a");
    assert_eq!(trim(""), "");
    assert_eq!(trim(" \u{a0}\u{3000} "), "");
    assert_eq!(trim("\u{2003}\u{e9}t\u{e9}\u{2028}"), "\u{e9}t\u{e9}");
}

#[test]
fn trim_agrees_with_the_standard_library() {
    let samples = [
        "", " ", "x", " x", "x ", "  x  y  ", "\t\r\n", "\u{85}x\u{85}", "\u{200b}x",
        " \u{feff} ", "a\u{1680}", "\u{205f}\u{202f}b\u{2029}",
    ];
    for s in samples {
        assert_eq!(trim(s), s.trim(), "{:?}", s);
    }
}

#[test]
fn skipping_and_dropping_white_space() {
    let chars = chars_of("  ab  ");
    assert_eq!(skip_whitespace(&chars, 0), 2);
    assert_eq!(skip_whitespace(&chars, 2), 2);
    assert_eq!(skip_whitespace(&chars, 4), 6);
    assert_eq!(skip_whitespace(&chars, 9), 9);
    assert_eq!(drop_whitespace(&chars, 0, 6), 4);
    assert_eq!(drop_whitespace(&chars, 0, 2), 0);
    assert_eq!(drop_whitespace(&chars, 1, 2), 1);
    assert_eq!(drop_whitespace(&chars, 5, 6), 5);
    assert_eq!(drop_whitespace(&chars, 0, 9), 9);
}

#[test]
fn a_pattern_is_found_where_it_stands() {
    let chars = chars_of("abcabc");
    let pat = chars_of("abc");
    assert!(matches_at(&chars, &pat, 0));
    assert!(!matches_at(&chars, &pat, 1));
    assert!(matches_at(&chars, &pat, 3));
    assert!(!matches_at(&chars, &pat, 4));
    assert!(!matches_at(&chars, &pat, 7));
    assert!(matches_at(&chars, &Vec::new(), 6));
    assert!(!matches_at(&chars, &Vec::new(), 7));
}
