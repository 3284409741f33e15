use pathit::text::blank;
use pathit::text::chars_of;
use pathit::text::line_end;
use pathit::text::next_line;
use pathit::text::string_of;
use pathit::text::trim_range;

#[test]
fn blank_is_unicode_white_space() {
    let mut code: u32 = 0;
    while code <= 0x10FFFF {
        if let Some(c) = char::from_u32(code) {
            assert_eq!(blank(c), c.is_whitespace(), "U+{:04X}", code);
        }
        code += 1;
    }
}

#[test]
fn blank_on_named_characters() {
    assert!(blank(' '));
    assert!(blank('\t'));
    assert!(blank('\n'));
    assert!(blank('\r'));
    assert!(blank('\u{00A0}'));
    assert!(blank('\u{3000}'));
    assert!(!blank('a'));
    assert!(!blank('-'));
    assert!(!blank('\u{200B}'));
}

#[test]
fn chars_of_gives_the_characters() {
    assert_eq!(chars_of("a/é日"), vec!['a', '/', 'é', '日']);
    assert_eq!(chars_of(""), Vec::<char>::new());
}

#[test]
fn string_of_takes_a_range() {
    let chars = chars_of("héllo wörld");
    assert_eq!(string_of(&chars, 0, 5), "héllo");
    assert_eq!(string_of(&chars, 6, 11), "wörld");
    assert_eq!(string_of(&chars, 3, 3), "");
}

#[test]
fn line_end_finds_the_line_feed() {
    let chars = chars_of("ab\ncd");
    assert_eq!(line_end(&chars, 0), 2);
    assert_eq!(line_end(&chars, 2), 2);
    assert_eq!(line_end(&chars, 3), 5);
    assert_eq!(line_end(&chars, 5), 5);
}

#[test]
fn next_line_steps_over_the_line_feed() {
    let chars = chars_of("ab\ncd");
    assert_eq!(next_line(&chars, 0), (2, 3));
    assert_eq!(next_line(&chars, 3), (5, 5));
    let chars = chars_of("\n\n");
    assert_eq!(next_line(&chars, 0), (0, 1));
    assert_eq!(next_line(&chars, 1), (1, 2));
}

#[test]
fn trim_range_agrees_with_str_trim() {
    let samples = [
        "",
        " ",
        "a",
        " a",
        "a ",
        "  a b  ",
        "\t\r a\u{00A0}b \u{3000}\u{2028}",
        "\u{0085}x\u{0085}",
        " \t ",
    ];
    for text in samples.iter() {
        let chars = chars_of(text);
        let (lo, hi) = trim_range(&chars, 0, chars.len());
        assert_eq!(string_of(&chars, lo, hi), text.trim(), "{:?}", text);
    }
}

#[test]
fn trim_range_stays_inside_the_range() {
    let chars = chars_of("ab  cd  ef");
    assert_eq!(trim_range(&chars, 2, 8), (4, 6));
    assert_eq!(trim_range(&chars, 2, 4), (4, 4));
}
