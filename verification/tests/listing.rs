use pathit::listing::byte_length;
use pathit::listing::find_separator;
use pathit::listing::format_entry;
use pathit::listing::parse_entry;
use pathit::listing::ParseError;
use pathit::text::chars_of;

#[test]
fn format_entry_puts_the_digest_first() {
    assert_eq!(format_entry("abc", "a.txt"), "abc, a.txt");
    assert_eq!(format_entry("", ""), ", ");
}

#[test]
fn byte_length_counts_bytes() {
    assert_eq!(byte_length(""), 0);
    assert_eq!(byte_length("abc"), 3);
    assert_eq!(byte_length("é"), 2);
    assert_eq!(byte_length("日本"), 6);
}

#[test]
fn find_separator_finds_the_first() {
    let chars = chars_of("ab, cd, ef");
    assert_eq!(find_separator(&chars, 0, chars.len()), Some(2));
    assert_eq!(find_separator(&chars, 3, chars.len()), Some(6));
    assert_eq!(find_separator(&chars, 7, chars.len()), None);
    assert_eq!(find_separator(&chars, 0, 3), None);
    let chars = chars_of("a,b ,, c");
    assert_eq!(find_separator(&chars, 0, chars.len()), Some(5));
}

#[test]
fn parse_entry_reads_path_and_digest() {
    let digest = "0123456789abcdef".repeat(4);
    let line = format!("{}, b/c, d.txt", digest);
    let chars = chars_of(&line);
    assert_eq!(
        parse_entry(&chars, 0, chars.len()),
        Ok(("b/c, d.txt".to_string(), digest))
    );
}

#[test]
fn parse_entry_fails_on_a_bad_line() {
    let chars = chars_of("abc, file.txt");
    assert_eq!(parse_entry(&chars, 0, chars.len()), Err(ParseError::DigestLength));
    let chars = chars_of("file.txt");
    assert_eq!(parse_entry(&chars, 0, chars.len()), Err(ParseError::MissingSeparator));
    let chars = chars_of("");
    assert_eq!(parse_entry(&chars, 0, 0), Err(ParseError::MissingSeparator));
}

#[test]
fn parse_error_messages() {
    assert_eq!(ParseError::MissingSeparator.message(), "line does not contain hash");
    assert_eq!(ParseError::DigestLength.message(), "digest length does not match");
}
