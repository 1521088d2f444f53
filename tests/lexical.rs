use json_parser::json::key_less;
use json_parser::lexer::is_whitespace;
use json_parser::json_parse;

#[test]
fn whitespace_class_matches_std() {
    for u in 0u32..0x3100 {
        if let Some(c) = char::from_u32(u) {
            assert_eq!(is_whitespace(c), c.is_whitespace(), "code point {:#x}", u);
        }
    }
}

#[test]
fn unicode_whitespace_is_skipped() {
    assert_eq!(
        json_parse("[\u{3000}1,\u{a0}2\u{2028}]").unwrap().to_text(),
        "[1,2]"
    );
}

#[test]
fn key_order_matches_string_order() {
    let keys = ["", "a", "b", "ab", "aa", "B", "\u{e9}", "\u{1f600}", "a\u{0}", "key0", "key1"];
    for a in keys {
        for b in keys {
            assert_eq!(key_less(a, b), a.to_string() < b.to_string(), "{:?} {:?}", a, b);
        }
    }
}

#[test]
fn long_array_parses() {
    let mut text = String::from("[");
    for k in 0..20000 {
        if k > 0 {
            text.push_str(", ");
        }
        text.push_str("12.5");
    }
    text.push(']');
    match json_parse(&text).unwrap() {
        json_parser::JsonItem::JsonArray(items) => assert_eq!(items.len(), 20000),
        _ => panic!("not an array"),
    }
}

#[test]
fn non_ascii_text_keeps_its_characters() {
    let (rest, v) = json_parser::json_parser("\"\u{e9}\u{1f600}\" \u{3b1}").unwrap();
    assert_eq!(rest, " \u{3b1}");
    assert_eq!(v.to_text(), "\"\u{e9}\u{1f600}\"");
}
