use sample_ime::strings::{
    capitalize_first_letter, capitalize_first_letter_of_words, get_abbreviation, get_bracket_bit,
    get_word_forms, space_after, space_before,
};

fn strings(v: &[&str]) -> Vec<String> {
    v.iter().map(|s| s.to_string()).collect()
}

#[test]
fn bracket_bits() {
    assert_eq!(get_bracket_bit('"'), Some(1));
    assert_eq!(get_bracket_bit('\''), Some(2));
    assert_eq!(get_bracket_bit('`'), Some(4));
    assert_eq!(get_bracket_bit('|'), Some(8));
    assert_eq!(get_bracket_bit('('), None);
}

#[test]
fn capitalize_first() {
    assert_eq!(capitalize_first_letter("xin chào".to_string()), "Xin chào");
    assert_eq!(capitalize_first_letter(String::new()), "");
    assert_eq!(capitalize_first_letter("đi".to_string()), "Đi");
    assert_eq!(capitalize_first_letter("ßa".to_string()), "SSa");
}

#[test]
fn capitalize_words() {
    assert_eq!(capitalize_first_letter_of_words("xin chào bạn".to_string()), "Xin Chào Bạn");
    assert_eq!(capitalize_first_letter_of_words(" a  b ".to_string()), "A  B");
    assert_eq!(capitalize_first_letter_of_words(String::new()), "");
}

#[test]
fn abbreviations_of_keys() {
    assert_eq!(get_abbreviation("ác bá".to_string()), strings(&["ab", "acba"]));
    assert_eq!(get_abbreviation("xin".to_string()), strings(&["x"]));
    assert_eq!(get_abbreviation("xin chào bạn".to_string()), strings(&["xcb", "xncobn"]));
    assert_eq!(get_abbreviation("a b c d".to_string()), strings(&["abcd"]));
    assert_eq!(get_abbreviation("xin chào bạn nhé".to_string()), strings(&["xcbn"]));
    assert_eq!(get_abbreviation("đi đâu".to_string()), strings(&["dd", "didu"]));
    assert_eq!(get_abbreviation(String::new()), strings(&[""]));
}

#[test]
fn word_forms_sorted_without_repeats() {
    assert_eq!(
        get_word_forms("xin chào".to_string()),
        strings(&["XIN CHÀO", "Xin Chào", "Xin chào", "xin chào"])
    );
    assert_eq!(get_word_forms("ABC".to_string()), strings(&["ABC", "abc"]));
    assert_eq!(get_word_forms("xc".to_string()), strings(&["XC", "Xc", "xc"]));
}

#[test]
fn spaces_before_marks() {
    assert!(space_before('(', 0, false));
    assert!(space_before('(', 0, true));
    assert!(!space_before(')', 0, false));
    assert!(!space_before('.', 0, false));
    assert!(space_before('"', 0, false));
    assert!(!space_before('"', 1, false));
    assert!(space_before('"', 2, false));
    assert!(!space_before('5', 0, true));
    assert!(space_before('5', 0, false));
    assert!(space_before('a', 0, true));
    assert!(!space_before(':', 0, false));
    assert!(space_before('<', 0, true));
}

#[test]
fn spaces_after_marks() {
    assert_eq!(space_after('a', 0), 3);
    assert_eq!(space_after('5', 0), 1);
    assert_eq!(space_after('.', 0), 1);
    assert_eq!(space_after(':', 0), 3);
    assert_eq!(space_after('"', 0), 3);
    assert_eq!(space_after('"', 1), 0);
    assert_eq!(space_after('(', 0), 0);
    assert_eq!(space_after(')', 0), 3);
    assert_eq!(space_after('-', 0), 0);
    assert_eq!(space_after('|', 8), 1);
    assert_eq!(space_after('|', 0), 3);
}
