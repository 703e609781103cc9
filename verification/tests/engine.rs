use sample_ime::engine::TableDictionaryEngine;

const DICTIONARY: &str = "xin chào\t你好\t1\nxin\t欣\t2\nXin\t新\t5\nxin\t欣\t9\nxinh\t好\t3\n";
const STYLE: &str = "chào\tchaof\n";

fn engine() -> TableDictionaryEngine {
    TableDictionaryEngine::load_resources(DICTIONARY, STYLE)
}

fn pairs(v: &[(&str, &str)]) -> Vec<(String, String)> {
    v.iter().map(|(k, w)| (k.to_string(), w.to_string())).collect()
}

#[test]
fn converts_tone_keys_and_punctuation() {
    let e = engine();
    assert_eq!(e.convert_input_string("xin,chaof".to_string()), "xin, chào");
    assert_eq!(e.convert_input_string("Chaof".to_string()), "Chào");
    assert_eq!(e.convert_input_string("CHAOF".to_string()), "CHÀO");
    assert_eq!(e.convert_input_string("abc123".to_string()), "abc123");
    assert_eq!(e.convert_input_string("(abc)".to_string()), "(abc)");
    assert_eq!(e.convert_input_string("a\"b\"c".to_string()), "a \"b\" c");
    assert_eq!(e.convert_input_string("1.5".to_string()), "1.5");
    assert_eq!(e.convert_input_string("a.b".to_string()), "a. b");
    assert_eq!(e.convert_input_string("xin chaof".to_string()), "xin  chào");
    assert_eq!(e.convert_input_string(String::new()), "");
}

#[test]
fn try_convert_gives_the_conversion() {
    let e = engine();
    assert_eq!(e.try_convert_input_string("chaof".to_string()), Some("chào".to_string()));
}

#[test]
fn collects_basic_words_then_forms() {
    let e = engine();
    assert_eq!(
        e.collect_words("xin", false),
        pairs(&[("xin", "新"), ("xin", "欣"), ("xin", "XIN"), ("xin", "Xin"), ("xin", "xin")])
    );
}

#[test]
fn collects_incrementally() {
    let e = engine();
    assert_eq!(
        e.collect_words("xin", true),
        pairs(&[
            ("xin", "新"),
            ("xin", "欣"),
            ("xinh", "好"),
            ("xin chào", "你好"),
            ("xin", "XIN"),
            ("xin", "Xin"),
            ("xin", "xin"),
        ])
    );
}

#[test]
fn collects_converted_and_typed_forms() {
    let e = engine();
    let expected = pairs(&[
        ("chào", "CHÀO"),
        ("chào", "Chào"),
        ("chào", "chào"),
        ("chaof", "CHAOF"),
        ("chaof", "Chaof"),
        ("chaof", "chaof"),
    ]);
    assert_eq!(e.collect_words("chaof", false), expected);
    assert_eq!(e.collect_words("Chaof", false), expected);
    let mut with_typed = expected.clone();
    with_typed.push(("chaof".to_string(), "cHaof".to_string()));
    assert_eq!(e.collect_words("cHaof", false), with_typed);
}

#[test]
fn collects_abbreviated_keys() {
    let e = engine();
    assert_eq!(
        e.collect_words("xc", false),
        pairs(&[("xin chào", "你好"), ("xc", "XC"), ("xc", "Xc"), ("xc", "xc")])
    );
    assert_eq!(
        e.try_collect_words("xc", false),
        Some(pairs(&[("xin chào", "你好"), ("xc", "XC"), ("xc", "Xc"), ("xc", "xc")]))
    );
}

#[test]
fn later_style_line_wins() {
    let e = TableDictionaryEngine::load_resources("", "chào\tchaof\ncháo\tchaof\nignored line\n");
    assert_eq!(e.convert_input_string("chaof".to_string()), "cháo");
}

#[test]
fn incremental_search_keeps_plain_words_in_order() {
    let e = engine();
    let plain = e.collect_words("xin", false);
    let incremental = e.collect_words("xin", true);
    // two keys extend "xin": "xin chào" (by a word) and "xinh" (as one word)
    assert_eq!(incremental.len(), plain.len() + 2);
    let mut rest = incremental.iter();
    for word in &plain {
        assert!(rest.any(|w| w == word));
    }
    let extra: Vec<_> = incremental.iter().filter(|w| !plain.contains(w)).collect();
    assert_eq!(extra.len(), 2);
    assert!(extra.contains(&&("xinh".to_string(), "好".to_string())));
    assert!(extra.contains(&&("xin chào".to_string(), "你好".to_string())));
}

#[test]
fn style_line_needs_exactly_one_tab() {
    let e = TableDictionaryEngine::load_resources("", "ngã\tnga\nhỏi\tnga\tx\nnoTab\n");
    assert_eq!(e.convert_input_string("nga".to_string()), "ngã");
}
