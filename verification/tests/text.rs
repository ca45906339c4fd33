use herdr_services::{number, path, text};

#[test]
fn white_space_is_trimmed_as_unicode_has_it() {
    assert_eq!(text::trim("\u{3000} a b\u{a0}\t"), "a b");
    assert_eq!(text::words(" a \u{2003}b\n"), vec!["a", "b"]);
    assert_eq!(text::lines("a\r\nb\n\nc"), vec!["a", "b", "", "c"]);
    assert_eq!(text::lines(""), Vec::<String>::new());
}

#[test]
fn texts_are_split_at_their_separators() {
    assert_eq!(text::split("a,,b", ','), vec!["a", "", "b"]);
    assert_eq!(text::split_once("k=v=w", '=').unwrap(), ("k".to_string(), "v=w".to_string()));
    assert_eq!(text::rsplit_once("a:b:c", ':').unwrap(), ("a:b".to_string(), "c".to_string()));
    assert_eq!(text::split_text("a://b://c", "://").unwrap(), ("a".to_string(), "b://c".to_string()));
    assert_eq!(text::split_text("abc", "://"), None);
}

#[test]
fn texts_are_fitted_into_columns() {
    assert_eq!(text::truncate("abcdef", 4), "abc…");
    assert_eq!(text::truncate("abcd", 4), "abcd");
    assert_eq!(text::truncate("abcd", 0), "");
    assert_eq!(text::pad("ab", 4), "ab  ");
    assert_eq!(text::pad("abcdef", 4), "abcdef");
    assert_eq!(text::repeat('─', 3), "───");
}

#[test]
fn sorted_texts_are_distinct() {
    let v = vec!["b".to_string(), "a".to_string(), "b".to_string(), "ab".to_string()];
    assert_eq!(text::sorted_distinct(v), vec!["a", "ab", "b"]);
    assert!(text::text_le("é", "ê"));
    assert!(!text::text_le("b", "a"));
}

#[test]
fn numbers_are_read_and_written() {
    assert_eq!(number::decimal(0), "0");
    assert_eq!(number::decimal(18446744073709551615), "18446744073709551615");
    assert_eq!(number::hex(0xbeef, 6), "00beef");
    assert_eq!(number::parse_port("65536"), None);
    assert_eq!(number::parse_port("+80"), Some(80));
    assert_eq!(number::parse_port(""), None);
    assert_eq!(number::parse_pid("4294967295"), Some(4294967295));
    assert_eq!(number::parse_bounded("Ff", 16, 255), Some(255));
}

#[test]
fn paths_are_compared_by_component() {
    assert_eq!(path::normalise("/a//b/./c/"), "/a/b/c");
    assert_eq!(path::normalise(""), "/");
    assert_eq!(path::depth("/a/b"), 3);
    assert!(path::is_under("/a/b/c", "/a/b"));
    assert!(!path::is_under("/a/bc", "/a/b"));
    assert_eq!(path::file_name("/a/b.rb"), "b.rb");
    assert_eq!(path::file_name("/a/.."), "");
    assert_eq!(path::join("/a", "b"), "/a/b");
    assert_eq!(path::join("/a/", "b"), "/a/b");
    assert_eq!(path::join("/a", "/b"), "/b");
}
