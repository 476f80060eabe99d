use inventory::{chars_of, contains_char, decimal, get_json, replace_all, string_from_chars, strip_quotes, trim_whitespace};

#[test]
fn strip_quotes_removes_the_outer_pair() {
    assert_eq!(strip_quotes(String::from("\"abc\"")), "abc");
}

#[test]
fn strip_quotes_drops_what_stands_outside() {
    assert_eq!(strip_quotes(String::from("x\"a\"y")), "a");
}

#[test]
fn strip_quotes_keeps_a_single_quote() {
    assert_eq!(strip_quotes(String::from("a\"b")), "a\"b");
}

#[test]
fn strip_quotes_keeps_escaped_inner_quotes() {
    assert_eq!(strip_quotes(String::from("\"say \\\"hi\\\"\"")), "say \\\"hi\\\"");
}

#[test]
fn strip_quotes_of_empty_string_rendering() {
    assert_eq!(strip_quotes(String::from("\"\"")), "");
}

#[test]
fn get_json_takes_the_bracketed_part() {
    let reply = String::from("{\"Response\":[{\"a\":1}],\"ErrorCode\":1}");
    assert_eq!(get_json(reply), "{\"a\":1}");
}

#[test]
fn get_json_of_empty_brackets() {
    assert_eq!(get_json(String::from("x[]y")), "");
}

#[test]
fn trim_removes_surrounding_whitespace() {
    assert_eq!(trim_whitespace("  key\n"), "key");
}

#[test]
fn trim_removes_unicode_whitespace() {
    assert_eq!(trim_whitespace("\t\u{3000}a b\u{A0}"), "a b");
}

#[test]
fn trim_of_only_whitespace_is_empty() {
    assert_eq!(trim_whitespace("   \r\n"), "");
}

#[test]
fn trim_keeps_zero_width_space() {
    assert_eq!(trim_whitespace("\u{200B}x"), "\u{200B}x");
}

#[test]
fn trim_twice_is_trim_once() {
    let once = trim_whitespace("  a b \t");
    assert_eq!(trim_whitespace(&once), once);
}

#[test]
fn replace_all_turns_written_newlines_into_breaks() {
    assert_eq!(replace_all("a\\nb\\nc", "\\n", " \n"), "a \nb \nc");
}

#[test]
fn replace_all_does_not_overlap() {
    assert_eq!(replace_all("aaa", "aa", "b"), "ba");
}

#[test]
fn replace_all_can_remove() {
    assert_eq!(replace_all("abab", "ab", ""), "");
}

#[test]
fn decimal_of_zero() {
    assert_eq!(decimal(0), "0");
}

#[test]
fn decimal_of_item_hash() {
    assert_eq!(decimal(1345867571), "1345867571");
}

#[test]
fn decimal_of_largest() {
    assert_eq!(decimal(u64::MAX), "18446744073709551615");
    assert_eq!(decimal(u64::MAX), u64::MAX.to_string());
}

#[test]
fn contains_char_finds_and_misses() {
    assert!(contains_char("a\"b", '"'));
    assert!(!contains_char("null", '"'));
}

#[test]
fn chars_roundtrip() {
    let chars = chars_of("héllo");
    assert_eq!(chars, vec!['h', 'é', 'l', 'l', 'o']);
    assert_eq!(string_from_chars(&chars), "héllo");
}

#[test]
fn strip_quotes_of_any_quoted_text_gives_it_back() {
    for t in ["", "a", "\"", "x\"y\"z", "é \\ ü"] {
        assert_eq!(strip_quotes(format!("\"{}\"", t)), t);
    }
}

#[test]
fn decimal_reads_back() {
    for n in [0u64, 9, 10, 99, 100, 4611686018459314819] {
        assert_eq!(decimal(n).parse::<u64>().unwrap(), n);
    }
}
