use auth_session::json::{parse_json, JsonValue};

fn chars(s: &str) -> Vec<char> {
    let mut v = Vec::new();
    for c in s.chars() {
        v.push(c);
    }
    v
}

fn parse(s: &str) -> Option<JsonValue> {
    parse_json(&chars(s))
}

#[test]
fn parses_literals() {
    assert!(matches!(parse("null"), Some(JsonValue::Null)));
    assert!(matches!(parse("true"), Some(JsonValue::Bool(true))));
    assert!(matches!(parse("false"), Some(JsonValue::Bool(false))));
}

#[test]
fn parses_numbers_as_lexemes() {
    match parse("-12.5e+3") {
        Some(JsonValue::Num(lex)) => assert_eq!(lex, "-12.5e+3"),
        _ => panic!("expected a number"),
    }
    match parse("0") {
        Some(JsonValue::Num(lex)) => assert_eq!(lex, "0"),
        _ => panic!("expected a number"),
    }
}

#[test]
fn rejects_leading_zero_and_bare_dot() {
    assert!(parse("01").is_none());
    assert!(parse("1.").is_none());
    assert!(parse("1e").is_none());
    assert!(parse("-").is_none());
}

#[test]
fn parses_strings_with_escapes() {
    match parse("\"a\\n\\t\\\\\\\"\\u0041z\"") {
        Some(JsonValue::Str(s)) => assert_eq!(s, "a\n\t\\\"Az"),
        _ => panic!("expected a string"),
    }
}

#[test]
fn rejects_bad_strings() {
    assert!(parse("\"unterminated").is_none());
    assert!(parse("\"bad\\q\"").is_none());
    assert!(parse("\"half\\u00G0\"").is_none());
    assert!(parse("\"lone\\uD800\"").is_none());
}

#[test]
fn parses_arrays_and_objects_with_whitespace() {
    let v = parse(" { \"a\" : [ 1 , true , \"x\" ] , \"b\" : { } } ").unwrap();
    match v {
        JsonValue::Obj(fields) => {
            assert_eq!(fields.len(), 2);
            assert_eq!(fields[0].0, "a");
            match &fields[0].1 {
                JsonValue::Arr(items) => assert_eq!(items.len(), 3),
                _ => panic!("expected an array"),
            }
            assert_eq!(fields[1].0, "b");
            assert!(matches!(&fields[1].1, JsonValue::Obj(f) if f.is_empty()));
        },
        _ => panic!("expected an object"),
    }
}

#[test]
fn parses_empty_array() {
    assert!(matches!(parse("[]"), Some(JsonValue::Arr(items)) if items.is_empty()));
    assert!(matches!(parse("[ ]"), Some(JsonValue::Arr(items)) if items.is_empty()));
}

#[test]
fn rejects_trailing_text_and_partial_values() {
    assert!(parse("{} extra").is_none());
    assert!(parse("[1,]").is_none());
    assert!(parse("[1 2]").is_none());
    assert!(parse("{\"a\":}").is_none());
    assert!(parse("{\"a\" 1}").is_none());
    assert!(parse("{,}").is_none());
    assert!(parse("").is_none());
    assert!(parse("nul").is_none());
}

#[test]
fn keeps_duplicate_keys_in_order() {
    match parse("{\"k\":1,\"k\":2}") {
        Some(JsonValue::Obj(fields)) => {
            assert_eq!(fields.len(), 2);
            assert_eq!(fields[0].0, "k");
            assert_eq!(fields[1].0, "k");
        },
        _ => panic!("expected an object"),
    }
}

#[test]
fn parses_nested_structures() {
    let v = parse("[[[]]]").unwrap();
    match v {
        JsonValue::Arr(a) => match &a[0] {
            JsonValue::Arr(b) => assert!(matches!(&b[0], JsonValue::Arr(c) if c.is_empty())),
            _ => panic!("expected nesting"),
        },
        _ => panic!("expected an array"),
    }
}
