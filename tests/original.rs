use json_parser::parser::{array_parser, number_parser, object_parser, string_parser};
use json_parser::JsonItem;

#[test]
fn test_json() {
    let num = JsonItem::number("1.0").unwrap();
    assert_eq!(num.to_text(), "1");
    let string = JsonItem::string("Hello, world!");
    assert_eq!(string.to_text(), "\"Hello, world!\"");
    let arr = JsonItem::array(vec![
        JsonItem::number("1.0").unwrap(),
        JsonItem::string("Hello, world!"),
    ]);
    assert_eq!(arr.to_text(), "[1,\"Hello, world!\"]");
    let map = JsonItem::object(vec![
        ("key0".to_string(), JsonItem::number("1.0").unwrap()),
        ("key1".to_string(), JsonItem::string("Hello, world!")),
    ]);
    assert_eq!(map.to_text(), "{key0:1,key1:\"Hello, world!\"}");
    let num0 = JsonItem::number("1.0").unwrap();
    let num1 = JsonItem::number("1.0").unwrap();
    assert_eq!(num0, num1);
    let str0 = JsonItem::string("Hello, world!");
    let str1 = JsonItem::string("Hello, world!");
    assert_eq!(str0, str1);
}

#[test]
fn test_number_lexer() {
    assert!(number_parser("1").is_ok());
    assert!(number_parser("-1").is_ok());
    assert!(number_parser("1.2").is_ok());
    assert!(number_parser("-1.2").is_ok());
    assert!(number_parser("abc").is_err());
}

#[test]
fn test_string_lexer() {
    assert!(string_parser("\"Hello, world!\"").is_ok());
    assert!(string_parser("Hello, world!").is_err());
}

#[test]
fn test_array_lexer() {
    assert!(
        array_parser("[1, 2, 3, 4, \"Hello, world!\", [1, 2, 3, 4, \"Hello, world!\"]]").is_ok()
    );
    assert!(array_parser("[]").is_ok());
    assert!(array_parser("1, 2, 3").is_err())
}

#[test]
fn test_object_lexer() {
    assert!(
        object_parser("{ \"key0\": 1, \"key1\": \"Hello, world!\", \"key2\": [1, 2, 3], \"key4\": { \"key5\": \"Hello, world!\" } }").is_ok()
    );
}
