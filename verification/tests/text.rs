use codecrafters_git::objects::text::chars_of;
use codecrafters_git::objects::text::contains_char;
use codecrafters_git::objects::text::find_byte;
use codecrafters_git::objects::text::is_whitespace_char;
use codecrafters_git::objects::text::same_text;
use codecrafters_git::objects::text::split_whitespace;
use codecrafters_git::objects::text::text_between;

#[test]
fn first_byte_is_found_from_the_start_index() {
    assert_eq!(find_byte(b"a b c", 0, b' '), Some(1));
    assert_eq!(find_byte(b"a b c", 1, b' '), Some(1));
    assert_eq!(find_byte(b"a b c", 2, b' '), Some(3));
    assert_eq!(find_byte(b"a b c", 4, b' '), None);
    assert_eq!(find_byte(b"a b c", 5, b' '), None);
    assert_eq!(find_byte(b"", 0, 0), None);
    assert_eq!(find_byte(b"\0", 0, 0), Some(0));
}

#[test]
fn whitespace_is_the_unicode_property() {
    for c in [
        '\t', '\n', '\u{b}', '\u{c}', '\r', ' ', '\u{85}', '\u{a0}', '\u{1680}', '\u{2000}',
        '\u{2005}', '\u{200a}', '\u{2028}', '\u{2029}', '\u{202f}', '\u{205f}', '\u{3000}',
    ] {
        assert!(is_whitespace_char(c), "{:?}", c);
    }
    for c in ['a', '0', '\0', '\u{8}', '\u{e}', '\u{1f}', '!', '\u{84}', '\u{86}', '\u{200b}',
        '\u{180e}', '\u{2060}', '\u{feff}', '\u{e9}'] {
        assert!(!is_whitespace_char(c), "{:?}", c);
    }
    for code in 0..0x3100u32 {
        if let Some(c) = char::from_u32(code) {
            assert_eq!(is_whitespace_char(c), c.is_whitespace(), "{:?}", c);
        }
    }
}

#[test]
fn tokens_are_what_whitespace_delimits() {
    let words = |line: &str| split_whitespace(line);
    assert_eq!(words(""), Vec::<String>::new());
    assert_eq!(words(" \t "), Vec::<String>::new());
    assert_eq!(words("one"), vec!["one"]);
    assert_eq!(words("  one  "), vec!["one"]);
    assert_eq!(words("tree 4b82"), vec!["tree", "4b82"]);
    assert_eq!(words("a\tb\u{a0}c\u{3000}\u{3000}d "), vec!["a", "b", "c", "d"]);
    assert_eq!(words("author J\u{fc}rgen <j@x.de>"), vec!["author", "J\u{fc}rgen", "<j@x.de>"]);
    for line in ["x  y z", " lead", "trail ", "\u{2003}wide\u{2003}", "a\nb"] {
        let expected: Vec<String> = line.split_whitespace().map(|t| t.to_string()).collect();
        assert_eq!(words(line), expected);
    }
}

#[test]
fn texts_are_compared_by_their_characters() {
    assert!(same_text("", ""));
    assert!(same_text("blob", "blob"));
    assert!(!same_text("blob", "Blob"));
    assert!(!same_text("blob", "blob "));
}

#[test]
fn characters_are_found_and_cut_by_their_index() {
    assert!(contains_char("a/b", '/'));
    assert!(!contains_char("a\\b", '/'));
    assert!(contains_char("nul\0", '\0'));
    assert!(!contains_char("", ' '));
    assert!(contains_char("gr\u{fc}n", '\u{fc}'));
    let chars = chars_of("gr\u{fc}n <x>");
    assert_eq!(chars, vec!['g', 'r', '\u{fc}', 'n', ' ', '<', 'x', '>']);
    assert_eq!(text_between(&chars, 0, 4), "gr\u{fc}n");
    assert_eq!(text_between(&chars, 6, 7), "x");
    assert_eq!(text_between(&chars, 3, 3), "");
    assert_eq!(text_between(&chars, 0, 8), "gr\u{fc}n <x>");
}
