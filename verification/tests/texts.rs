use wisp_cli::text::{
    chars_of, contains_char, ends_with, find_char, is_space, parse_u16, replace_all, split_text,
    split_words, trim,
};

#[test]
fn trim_takes_white_space_from_both_ends() {
    assert_eq!(trim("  a b \t\r\n"), "a b");
    assert_eq!(trim("a"), "a");
    assert_eq!(trim(""), "");
    assert_eq!(trim(" \n\t "), "");
    assert_eq!(trim("\u{a0}x\u{3000}"), "x");
    for s in ["  a b ", "", " ", "x", "\u{2003}\u{e9}t\u{e9} \u{85}", "\u{200b}zero"] {
        assert_eq!(trim(s), s.trim());
    }
}

#[test]
fn is_space_is_the_white_space_property() {
    for u in 0..0x3100u32 {
        if let Some(c) = char::from_u32(u) {
            assert_eq!(is_space(c), c.is_whitespace());
        }
    }
}

#[test]
fn split_words_cuts_at_white_space() {
    assert_eq!(split_words("  /a   /b\t301! "), vec!["/a", "/b", "301!"]);
    assert_eq!(split_words("one"), vec!["one"]);
    assert!(split_words("").is_empty());
    assert!(split_words(" \t ").is_empty());
    for s in ["a b", " a  b ", "\u{e9} \u{3000}x", "a\nb\r\nc"] {
        let want: Vec<&str> = s.split_whitespace().collect();
        assert_eq!(split_words(s), want);
    }
}

#[test]
fn split_text_cuts_at_each_separator() {
    assert_eq!(split_text("a?b?c", '?'), vec!["a", "b", "c"]);
    assert_eq!(split_text("a\n\nb\n", '\n'), vec!["a", "", "b", ""]);
    assert_eq!(split_text("", ','), vec![""]);
}

#[test]
fn parse_u16_reads_digits() {
    assert_eq!(parse_u16("0"), Some(0));
    assert_eq!(parse_u16("301"), Some(301));
    assert_eq!(parse_u16("+302"), Some(302));
    assert_eq!(parse_u16("00200"), Some(200));
    assert_eq!(parse_u16("65535"), Some(65535));
    assert_eq!(parse_u16("65536"), None);
    assert_eq!(parse_u16("99999999999999999999"), None);
    assert_eq!(parse_u16(""), None);
    assert_eq!(parse_u16("+"), None);
    assert_eq!(parse_u16("-1"), None);
    assert_eq!(parse_u16("12a"), None);
    assert_eq!(parse_u16(" 12"), None);
    assert_eq!(parse_u16("++1"), None);
    assert_eq!(parse_u16("\u{661}"), None);
    for s in ["7", "+7", "65535", "65536", "", "+", "x", "1 ", "0000"] {
        assert_eq!(parse_u16(s), s.parse::<u16>().ok());
    }
}

#[test]
fn replace_all_goes_from_left_to_right() {
    assert_eq!(replace_all("/posts/:year-:month", ":year", "2024"), "/posts/2024-:month");
    assert_eq!(replace_all("aaa", "aa", "b"), "ba");
    assert_eq!(replace_all("abcabc", "bc", ""), "aa");
    assert_eq!(replace_all("abc", "x", "y"), "abc");
    assert_eq!(replace_all("abc", "abcd", "y"), "abc");
    assert_eq!(replace_all("", "a", "b"), "");
    assert_eq!(replace_all("a*b*", "*", "(.*)"), "a(.*)b(.*)");
    assert_eq!(replace_all("xx", "x", "xx"), "xxxx");
    assert_eq!(replace_all("abc", "", "-"), "abc");
    for (t, f, r) in [("a.b.c", ".", "::"), ("\u{e9}t\u{e9}", "\u{e9}", "e"), ("aXbXc", "X", "")] {
        assert_eq!(replace_all(t, f, r), t.replace(f, r));
    }
}

#[test]
fn small_text_helpers() {
    assert_eq!(chars_of("h\u{e9}"), vec!['h', '\u{e9}']);
    assert_eq!(find_char("a=b=c", '='), 1);
    assert_eq!(find_char("abc", '='), 3);
    assert_eq!(find_char("\u{e9}=", '='), 1);
    assert!(contains_char("a?b", '?'));
    assert!(!contains_char("ab", '?'));
    assert!(ends_with("^/x.*", ".*"));
    assert!(!ends_with("^/x", ".*"));
    assert!(ends_with("abc", ""));
    assert!(!ends_with("c", "bc"));
}
