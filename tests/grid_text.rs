use rust_wasm::grid_text::{chars_of, is_whitespace_char, trim_bounds};

#[test]
fn whitespace_matches_std() {
    for c in ['\t', '\n', '\u{0B}', '\u{0C}', '\r', ' ', '\u{85}', '\u{A0}', '\u{1680}', '\u{2000}', '\u{2005}', '\u{200A}', '\u{2028}', '\u{2029}', '\u{202F}', '\u{205F}', '\u{3000}', 'a', '#', '_', '\u{200B}', '\u{1FFF}', '0'] {
        assert_eq!(is_whitespace_char(c), c.is_whitespace(), "{:?}", c);
    }
}

#[test]
fn chars_in_order() {
    assert_eq!(chars_of("a\u{e9}#\n"), vec!['a', '\u{e9}', '#', '\n']);
    assert_eq!(chars_of(""), Vec::<char>::new());
}

#[test]
fn trim_bounds_drop_whitespace() {
    let cs = chars_of("  #_ \n");
    assert_eq!(trim_bounds(&cs), (2, 4));
    let blank = chars_of(" \t\n");
    let (a, b) = trim_bounds(&blank);
    assert_eq!(a, b);
}
