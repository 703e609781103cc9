use sample_ime::parser::{dictionary_well_formed, find_items};

const INPUT: &str = "ạc\t噁\t3\nác bá\t惡霸\t1\nác báo\t惡報\t1";
const INPUT_CRLF: &str = "ạc\t噁\t3\r\nác bá\t惡霸\t1\r\nác báo\t惡報\t1";

fn never(_: &str, _: &str) -> bool {
    false
}

#[test]
fn find() {
    let vec = find_items(INPUT, "ác bá", false, false, never);
    assert_eq!(vec, [("ác bá", "惡霸", 1)]);
}

#[test]
fn find_value() {
    let vec = find_items(INPUT, "惡霸", true, false, never);
    assert_eq!(vec, [("ác bá", "惡霸", 1)]);
}

#[test]
fn find_crlf() {
    let vec = find_items(INPUT_CRLF, "ác bá", false, false, never);
    assert_eq!(vec, [("ác bá", "惡霸", 1)]);
}

#[test]
fn find_all_wildcard() {
    let vec = find_items(INPUT_CRLF, "ác bá", false, true, |key: &str, target: &str| target.starts_with(key));
    assert_eq!(vec, [("ác bá", "惡霸", 1), ("ác báo", "惡報", 1)]);
}

#[test]
fn find_ignores_ascii_case() {
    let vec = find_items("ABC\tx\t2\nabd\ty\t3", "abc", false, false, never);
    assert_eq!(vec, [("ABC", "x", 2)]);
}

#[test]
fn find_skips_lines_that_are_not_entries() {
    let vec = find_items("abc\tx\nabc\tx\t2\tz\nabc\ty\t+7\n", "abc", false, false, never);
    assert_eq!(vec, [("abc", "y", 7)]);
}

#[test]
fn well_formed_dictionaries() {
    assert!(dictionary_well_formed("a\tb\t1\nfoo\nx\ty\t+7\n"));
    assert!(!dictionary_well_formed("a\tb\tx"));
    assert!(!dictionary_well_formed("a\tb\t300"));
    assert!(!dictionary_well_formed("a\tb\t 1"));
    assert!(dictionary_well_formed(""));
}

#[test]
fn written_entry_line_reads_back() {
    let line = format!("{}\t{}\t{}", "ác", "惡", 255u8);
    assert_eq!(find_items(&line, "ác", false, false, never), [("ác", "惡", 255)]);
    assert!(dictionary_well_formed(&line));
}

#[test]
fn entry_line_needs_exactly_two_tabs() {
    let content = "a\tb\nc\td\t1\te\nf\tg\t2";
    assert_eq!(find_items(content, "a", false, false, never), []);
    assert_eq!(find_items(content, "c", false, false, never), []);
    assert_eq!(find_items(content, "f", false, false, never), [("f", "g", 2)]);
}
