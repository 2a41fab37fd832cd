use wasm_cookies::text::chars_of;
use wasm_cookies::text::find_char;
use wasm_cookies::text::is_whitespace_char;
use wasm_cookies::text::same_text;
use wasm_cookies::text::trim_bounds;

#[test]
fn whitespace_is_what_std_calls_whitespace() {
    let mut count = 0;
    for n in 0..=0x10FFFFu32 {
        if let Some(c) = char::from_u32(n) {
            assert_eq!(is_whitespace_char(c), c.is_whitespace(), "U+{:04X}", n);
            if is_whitespace_char(c) {
                count += 1;
            }
        }
    }
    assert_eq!(count, 25);
}

#[test]
fn chars_of_gives_each_character() {
    assert_eq!(chars_of("a\u{e9}\u{20ac}"), vec!['a', '\u{e9}', '\u{20ac}']);
    assert!(chars_of("").is_empty());
}

#[test]
fn find_char_gives_the_first_place_in_range() {
    let v = chars_of("a=b=c");
    assert_eq!(find_char(&v, 0, 5, '='), 1);
    assert_eq!(find_char(&v, 2, 5, '='), 3);
    assert_eq!(find_char(&v, 4, 5, '='), 5);
    assert_eq!(find_char(&v, 0, 1, '='), 1);
    assert_eq!(find_char(&v, 0, 0, '='), 0);
    assert_eq!(find_char(&v, 0, 5, ';'), 5);
}

#[test]
fn trim_bounds_skips_whitespace_at_both_ends() {
    let v = chars_of(" \t a b \n");
    assert_eq!(trim_bounds(&v, 0, v.len()), (3, 6));
    assert_eq!(trim_bounds(&v, 3, 6), (3, 6));
    assert_eq!(trim_bounds(&v, 4, 5), (5, 5));
    assert_eq!(trim_bounds(&v, 0, 3), (3, 3));
    assert_eq!(trim_bounds(&v, 2, 2), (2, 2));
    for s in ["", " ", "a", " a", "a ", "\u{a0}x y\u{2003}", "\u{feff}a "] {
        let v = chars_of(s);
        let (a, b) = trim_bounds(&v, 0, v.len());
        let trimmed: String = v[a..b].iter().collect();
        assert_eq!(trimmed, s.trim());
    }
}

#[test]
fn same_text_compares_characters() {
    assert!(same_text("", ""));
    assert!(same_text("k\u{e9}y", "k\u{e9}y"));
    assert!(!same_text("key", "kez"));
    assert!(!same_text("key", "ke"));
    assert!(!same_text("", "a"));
    assert!(!same_text("a\u{e9}", "a\u{e8}"));
}
