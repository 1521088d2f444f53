use json_parser::parser::{array_parser, number_parser, object_parser, string_parser};
use json_parser::{json_parse, json_parser, JsonItem, JsonParseError};

fn num(t: &str) -> JsonItem {
    JsonItem::number(t).unwrap()
}

fn text_of_parse(t: &str) -> String {
    json_parse(t).unwrap().to_text()
}

#[test]
fn integral_number_renders_without_fraction() {
    assert_eq!(num("1.0").to_text(), "1");
    assert_eq!(json_parse("1.0").unwrap().to_text(), "1");
    assert_eq!(json_parse("1").unwrap(), num("1.0"));
}

#[test]
fn numbers_render_canonically() {
    assert_eq!(num("1.5").to_text(), "1.5");
    assert_eq!(num("-2").to_text(), "-2");
    assert_eq!(num("+3").to_text(), "3");
    assert_eq!(num("1e3").to_text(), "1000");
    assert_eq!(num("2.50E-1").to_text(), "0.25");
    assert_eq!(num(".5").to_text(), "0.5");
    assert_eq!(num("7.").to_text(), "7");
    assert_eq!(num("-1.2").to_text(), "-1.2");
}

#[test]
fn number_needs_one_whole_literal() {
    assert!(JsonItem::number("abc").is_none());
    assert!(JsonItem::number("").is_none());
    assert!(JsonItem::number("1 ").is_none());
    assert!(JsonItem::number("1e").is_none());
    assert!(JsonItem::number("-").is_none());
    assert!(JsonItem::number(".").is_none());
}

#[test]
fn number_parser_leaves_the_rest() {
    let (rest, v) = number_parser("12.5e1xyz").unwrap();
    assert_eq!(rest, "xyz");
    assert_eq!(v.to_text(), "125");
    assert!(number_parser("1e+").is_err());
    assert!(number_parser("\"1\"").is_err());
}

#[test]
fn numbers_need_a_digit() {
    for t in ["nan", "NaN", "inf", "INF", "infinity", "-inf", "e5", "+", "-.", ".e1"] {
        assert!(number_parser(t).is_err(), "{}", t);
        assert!(json_parse(t).is_err(), "{}", t);
        assert!(JsonItem::number(t).is_none(), "{}", t);
    }
    assert!(json_parse("[nan]").is_err());
    assert_eq!(number_parser("-.5x").unwrap().0, "x");
    assert_eq!(number_parser("+7").unwrap().1.to_text(), "7");
}

#[test]
fn numbers_compare_as_floats() {
    assert_eq!(num("0"), num("-0.0"));
    assert_eq!(num("1e2"), num("100.000"));
    assert_ne!(num("1"), num("2"));
    assert_ne!(num("1"), JsonItem::string("1"));
    let nan = JsonItem::JsonNumber("NaN".to_string());
    assert_ne!(nan, JsonItem::JsonNumber("NaN".to_string()));
    assert_eq!(
        json_parse("[0, {\"a\": -0}]").unwrap(),
        json_parse("[-0, {\"a\": 0}]").unwrap()
    );
}

#[test]
fn number_round_trip() {
    for t in ["1", "-1", "0.5", "123.25", "-7.125", "1000000"] {
        let v = num(t);
        assert_eq!(json_parse(&v.to_text()).unwrap(), v);
    }
}

#[test]
fn string_value_parses() {
    assert_eq!(
        json_parse("\"Hello, world!\"").unwrap(),
        JsonItem::string("Hello, world!")
    );
    assert!(json_parse("Hello, world!").is_err());
}

#[test]
fn string_token_edges() {
    assert_eq!(json_parse("\"\"").unwrap(), JsonItem::string(""));
    assert!(json_parse("\"abc").is_err());
    assert_eq!(json_parse("\"a\\n\"").unwrap().to_text(), "\"a\\n\"");
    let (rest, v) = string_parser("\"x y\" tail").unwrap();
    assert_eq!(rest, " tail");
    assert_eq!(v, JsonItem::string("x y"));
}

#[test]
fn nested_array_parses() {
    let v = json_parse("[1, 2, 3, 4, \"Hello, world!\", [1, 2, 3, 4, \"Hello, world!\"]]").unwrap();
    match &v {
        JsonItem::JsonArray(items) => {
            assert_eq!(items.len(), 6);
            match &items[5] {
                JsonItem::JsonArray(inner) => {
                    assert_eq!(inner.len(), 5);
                    for k in 0..5 {
                        assert_eq!(inner[k], items[k]);
                    }
                }
                _ => panic!("the last element is not an array"),
            }
        }
        _ => panic!("not an array"),
    }
    assert_eq!(
        v.to_text(),
        "[1,2,3,4,\"Hello, world!\",[1,2,3,4,\"Hello, world!\"]]"
    );
}

#[test]
fn empty_array_and_bare_list() {
    assert_eq!(json_parse("[]").unwrap(), JsonItem::array(vec![]));
    assert_eq!(json_parse("[ \n ]").unwrap(), JsonItem::array(vec![]));
    assert!(array_parser("1, 2, 3").is_err());
    assert_eq!(json_parse("1, 2, 3").unwrap(), num("1"));
}

#[test]
fn array_whitespace_and_failures() {
    assert_eq!(text_of_parse("[ 1 ,\t2 ]"), "[1,2]");
    assert!(json_parse("[1,2").is_err());
    assert!(json_parse("[1,]").is_err());
    assert!(json_parse("[,1]").is_err());
    assert!(json_parse("[1 2]").is_err());
    assert!(json_parse("[1,2e]").is_err());
}

#[test]
fn empty_object_parses() {
    assert_eq!(json_parse("{}").unwrap(), JsonItem::object(vec![]));
    assert_eq!(json_parse("{ }").unwrap().to_text(), "{}");
}

#[test]
fn object_key_order_does_not_matter() {
    let a = json_parse("{\"key0\": 1, \"key1\": \"x\"}").unwrap();
    let b = json_parse("{\"key1\": \"x\", \"key0\": 1}").unwrap();
    assert_eq!(a, b);
    assert_eq!(a.to_text(), "{key0:1,key1:\"x\"}");
    assert_eq!(b.to_text(), "{key0:1,key1:\"x\"}");
}

#[test]
fn object_later_key_wins() {
    assert_eq!(text_of_parse("{\"a\": 1, \"a\": 2}"), "{a:2}");
    assert_eq!(text_of_parse("{\"b\":1,\"a\":2,\"b\":3}"), "{a:2,b:3}");
    let o = JsonItem::object(vec![
        ("k".to_string(), num("1")),
        ("k".to_string(), num("2")),
    ]);
    assert_eq!(o.to_text(), "{k:2}");
}

#[test]
fn object_keys_sort_by_code_point() {
    assert_eq!(
        text_of_parse("{\"b\":1,\"B\":2,\"ab\":3,\"a\":4,\"\u{e9}\":5}"),
        "{B:2,a:4,ab:3,b:1,\u{e9}:5}"
    );
}

#[test]
fn object_whitespace_and_failures() {
    assert_eq!(
        text_of_parse("{ \"k\" :\n[1, {\"z\": \"y\"}] , \"j\" : 2 }"),
        "{j:2,k:[1,{z:\"y\"}]}"
    );
    assert!(json_parse("{\"k\" 1}").is_err());
    assert!(json_parse("{k: 1}").is_err());
    assert!(json_parse("{\"k\": 1").is_err());
    assert!(json_parse("{\"k\": 1,}").is_err());
    assert!(object_parser("[1]").is_err());
}

#[test]
fn rendered_object_does_not_parse_back() {
    let v = json_parse("{\"k\": 1}").unwrap();
    assert_eq!(v.to_text(), "{k:1}");
    assert!(json_parse(&v.to_text()).is_err());
}

#[test]
fn equal_inputs_make_equal_values() {
    assert_eq!(num("1.0"), num("1.0"));
    assert_eq!(JsonItem::string("x"), JsonItem::string("x"));
    assert_ne!(JsonItem::string("x"), JsonItem::string("y"));
}

#[test]
fn render_parse_render_is_stable() {
    let v = JsonItem::array(vec![
        num("1.5"),
        JsonItem::string("a b"),
        JsonItem::array(vec![]),
        JsonItem::object(vec![]),
        JsonItem::array(vec![num("-3"), JsonItem::string("")]),
    ]);
    let t = v.to_text();
    assert_eq!(t, "[1.5,\"a b\",[],{},[-3,\"\"]]");
    assert_eq!(json_parse(&t).unwrap().to_text(), t);
}

#[test]
fn trailing_text_is_left() {
    assert_eq!(json_parse("[1] tail").unwrap(), JsonItem::array(vec![num("1")]));
    let (rest, _) = json_parser("[1] tail").unwrap();
    assert_eq!(rest, " tail");
}

#[test]
fn failures_are_one_kind() {
    assert_eq!(json_parse("").unwrap_err(), JsonParseError {});
    assert_eq!(json_parse("?").unwrap_err().message(), "cannot pass this json");
    assert!(json_parse("   1").is_err());
}
