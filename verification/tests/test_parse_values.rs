use std::borrow::Cow;

use nojson::{Json, JsonParseError, JsonValueKind, RawJson, RawJsonValue};

fn parse_error(text: &str) -> JsonParseError {
    RawJson::parse(text).expect_err("expected parsing to fail")
}

#[test]
fn test_parse_parse_nulls() -> Result<(), JsonParseError> {
    let json = RawJson::parse(" null ")?;
    let value = json.value();
    assert_eq!(value.kind(), JsonValueKind::Null);
    assert_eq!(value.as_raw_str(), "null");
    assert_eq!(value.position(), 1);

    let e = parse_error("nuL");
    assert!(matches!(e, JsonParseError::UnexpectedValueChar { kind: Some(JsonValueKind::Null), position: 2 }), "error={e:?}");
    let e = parse_error("nul");
    assert!(matches!(e, JsonParseError::UnexpectedEos { kind: Some(JsonValueKind::Null), position: 3 }), "error={e:?}");
    let e = parse_error("nulla");
    assert!(matches!(e, JsonParseError::UnexpectedTrailingChar { kind: JsonValueKind::Null, position: 4 }), "error={e:?}");
    Ok(())
}

#[test]
fn test_parse_parse_bools() -> Result<(), JsonParseError> {
    let json = RawJson::parse("true")?;
    let value = json.value();
    assert_eq!(value.kind(), JsonValueKind::Boolean);
    assert_eq!(value.as_raw_str(), "true");
    assert_eq!(value.position(), 0);

    let json = RawJson::parse(" false ")?;
    let value = json.value();
    assert_eq!(value.kind(), JsonValueKind::Boolean);
    assert_eq!(value.as_raw_str(), "false");
    assert_eq!(value.position(), 1);

    let e = parse_error("false true");
    assert!(matches!(e, JsonParseError::UnexpectedTrailingChar { kind: JsonValueKind::Boolean, position: 6 }), "error={e:?}");
    let e = parse_error("fale");
    assert!(matches!(e, JsonParseError::UnexpectedValueChar { kind: Some(JsonValueKind::Boolean), position: 3 }), "error={e:?}");
    let e = parse_error("tr");
    assert!(matches!(e, JsonParseError::UnexpectedEos { kind: Some(JsonValueKind::Boolean), position: 2 }), "error={e:?}");
    Ok(())
}

#[test]
fn test_parse_parse_numbers() -> Result<(), JsonParseError> {
    for text in ["0", "-12"] {
        let json = RawJson::parse(text)?;
        let value = json.value();
        assert_eq!(value.kind(), JsonValueKind::Integer);
        assert_eq!(value.as_raw_str(), text);
        assert_eq!(value.position(), 0);
    }
    for text in ["12.3", "12.3e4", "12.3e-4", "-0.3e+4", "12E034"] {
        let json = RawJson::parse(text)?;
        let value = json.value();
        assert_eq!(value.kind(), JsonValueKind::Float);
        assert_eq!(value.as_raw_str(), text);
        assert_eq!(value.position(), 0);
    }
    {
        let (text, position) = ("--1", 1);
        let e = parse_error(text);
        assert!(matches!(e, JsonParseError::UnexpectedValueChar { kind: Some(JsonValueKind::Integer), .. }), "text={text}, error={e:?}");
        assert_eq!(e.position(), position);
    }
    for (text, position) in [("1..2", 2), ("1ee2", 2), ("1e+-3", 3)] {
        let e = parse_error(text);
        assert!(matches!(e, JsonParseError::UnexpectedValueChar { kind: Some(JsonValueKind::Float), .. }), "text={text}, error={e:?}");
        assert_eq!(e.position(), position);
    }
    for text in ["e123", "+2", ".123"] {
        let e = parse_error(text);
        assert!(matches!(e, JsonParseError::UnexpectedValueChar { kind: None, position: 0 }), "text={text}, error={e:?}");
    }
    for (text, position) in [("123.4.5", 5), ("0123", 1), ("00", 1)] {
        let e = parse_error(text);
        assert!(
            matches!(e, JsonParseError::UnexpectedTrailingChar { kind: JsonValueKind::Float | JsonValueKind::Integer, .. }),
            "text={text}, error={e:?}"
        );
        assert_eq!(e.position(), position);
    }
    for text in ["123.", "-", "123e", "123e-"] {
        let e = parse_error(text);
        assert!(matches!(e, JsonParseError::UnexpectedEos { .. }), "text={text}, error={e:?}");
    }
    Ok(())
}

#[test]
fn test_parse_parse_strings() -> Result<(), JsonParseError> {
    for (text, unescaped) in [(r#" "" "#, ""), (r#" "abc" "#, "abc"), (r#" "あa" "#, "あa"), (r#" "日本語x" "#, "日本語x")] {
        let json = RawJson::parse(text)?;
        let value = json.value();
        assert_eq!(value.kind(), JsonValueKind::String);
        assert_eq!(value.as_raw_str(), text.trim());
        assert_eq!(value.position(), 1);
        assert!(matches!(value.to_unquoted_string_str(), Ok(Cow::Borrowed(_))));
        assert_eq!(value.to_unquoted_string_str()?, unescaped);
    }
    for (text, unescaped) in [
        (r#" "ab\tc" "#, "ab\tc"),
        (r#" "\n\\a\r\nb\b\"\fc" "#, "\n\\a\r\nb\u{8}\"\u{c}c"),
        (r#" "ab\uF20ac" "#, "ab\u{f20a}c"),
    ] {
        let json = RawJson::parse(text)?;
        let value = json.value();
        assert_eq!(value.kind(), JsonValueKind::String);
        assert_eq!(value.as_raw_str(), text.trim());
        assert_eq!(value.position(), 1);
        assert!(matches!(value.to_unquoted_string_str(), Ok(Cow::Owned(_))));
        assert_eq!(value.to_unquoted_string_str()?, unescaped);
    }
    for (text, error_position) in [(r#" "ab\xc" "#, 5), (r#" "ab\uXyz0c" "#, 6)] {
        let e = parse_error(text);
        assert!(matches!(e, JsonParseError::UnexpectedValueChar { kind: Some(JsonValueKind::String), .. }), "text={text}, error={e:?}");
        assert_eq!(e.position(), error_position);
    }
    for text in [r#" "ab "#, r#" "ab\"#, r#" "ab\u"#, r#" "ab\u0"#, r#" "ab\u01"#, r#" "ab\u012"#] {
        let e = parse_error(text);
        assert!(matches!(e, JsonParseError::UnexpectedEos { .. }), "text={text}, error={e:?}");
    }
    Ok(())
}

#[test]
fn parse_surrogate_pairs() -> Result<(), JsonParseError> {
    for (text, unescaped) in [
        (r#" "\uD834\uDD1E" "#, "\u{1D11E}"),
        (r#" "\uD83D\uDE00" "#, "\u{1F600}"),
        (r#" "\uD800\uDC00" "#, "\u{10000}"),
        (r#" "\uDBFF\uDFFF" "#, "\u{10FFFF}"),
        (r#" "a\uD834\uDD1Eb" "#, "a\u{1D11E}b"),
        (r#" "\uD834\uDD1E\uD83D\uDE00" "#, "\u{1D11E}\u{1F600}"),
        (r#" "\uD83D\ude00" "#, "\u{1F600}"),
    ] {
        let json = RawJson::parse(text)?;
        let value = json.value();
        assert_eq!(value.kind(), JsonValueKind::String);
        assert_eq!(value.as_raw_str(), text.trim());
        assert!(matches!(value.to_unquoted_string_str(), Ok(Cow::Owned(_))));
        assert_eq!(value.to_unquoted_string_str()?, unescaped);
    }
    for (text, unescaped) in [
        (r#" "\u00E9" "#, "\u{00E9}"),
        (r#" "\uD7FF" "#, "\u{D7FF}"),
        (r#" "\uE000" "#, "\u{E000}"),
        (r#" "\uFFFD" "#, "\u{FFFD}"),
    ] {
        let json = RawJson::parse(text)?;
        let value = json.value();
        assert_eq!(value.to_unquoted_string_str()?, unescaped);
    }
    for (text, error_position) in [
        (r#" "\uD834" "#, 8),
        (r#" "\uDD1E" "#, 4),
        (r#" "\uD834x" "#, 8),
        (r#" "\uD834\n" "#, 8),
        (r#" "\uD834\u0041" "#, 10),
        (r#" "\uD834\uD7FF" "#, 10),
        (r#" "\uD834\uE000" "#, 10),
        (r#" "\uD834\uD800" "#, 10),
    ] {
        let e = parse_error(text);
        assert!(matches!(e, JsonParseError::UnexpectedValueChar { kind: Some(JsonValueKind::String), .. }), "text={text}, error={e:?}");
        assert_eq!(e.position(), error_position, "text={text}");
    }
    for text in [r#" "\uD834"#, r#" "\uD834\u"#, r#" "\uD834\u0"#, r#" "\uD834\u00"#, r#" "\uD834\u000"#] {
        let e = parse_error(text);
        assert!(matches!(e, JsonParseError::UnexpectedEos { .. }), "text={text}, error={e:?}");
    }
    Ok(())
}

#[test]
fn parse_surrogate_pair_in_object_key() -> Result<(), JsonParseError> {
    let text = r#"{"\uD834\uDD1E": 1}"#;
    let json = RawJson::parse(text)?;
    let value = json.value().to_member("\u{1D11E}")?.required()?;
    let n: u32 = value.try_into()?;
    assert_eq!(n, 1);
    Ok(())
}

#[test]
fn test_parse_parse_arrays() -> Result<(), JsonParseError> {
    for text in ["[]", "[ \n\t ]", "[1  ,null, \"foo\"  ]", "[ 1, [[ 2 ], 3,null ],false]"] {
        let json = RawJson::parse(text)?;
        let value = json.value();
        assert_eq!(value.kind(), JsonValueKind::Array);
        assert_eq!(value.as_raw_str(), text);
        assert_eq!(value.position(), 0);
    }
    for (text, position) in [("[,]", 1), ("[1,2,]", 5)] {
        let e = parse_error(text);
        assert!(matches!(e, JsonParseError::UnexpectedValueChar { kind: Some(JsonValueKind::Array), .. }), "text={text}, error={e:?}");
        assert_eq!(e.position(), position);
    }
    let e = parse_error("]");
    assert!(matches!(e, JsonParseError::UnexpectedValueChar { kind: None, position: 0 }), "error={e:?}");
    let e = parse_error("[1,2]]");
    assert!(matches!(e, JsonParseError::UnexpectedTrailingChar { kind: JsonValueKind::Array, position: 5 }), "error={e:?}");
    let e = parse_error(r#"{"foo":[]]}"#);
    assert!(matches!(e, JsonParseError::UnexpectedValueChar { kind: Some(JsonValueKind::Object), position: 9 }), "error={e:?}");
    for text in ["[", "[1,2", "[1,2,"] {
        let e = parse_error(text);
        assert!(matches!(e, JsonParseError::UnexpectedEos { .. }), "text={text}, error={e:?}");
    }
    Ok(())
}

#[test]
fn test_parse_parse_objects() -> Result<(), JsonParseError> {
    for text in ["{}", "{ \n\t }", r#"{"foo":1  ,"null": null, "foo" :"bar" }"#, r#"{"foo": {}, "bar":[{"a":null}]}"#] {
        let json = RawJson::parse(text)?;
        let value = json.value();
        assert_eq!(value.kind(), JsonValueKind::Object);
        assert_eq!(value.as_raw_str(), text);
        assert_eq!(value.position(), 0);
    }
    for (text, position) in [("{,}", 1), ("{:}", 1), (r#"{"foo","bar"}"#, 6), (r#"{"foo":"bar",}"#, 13)] {
        let e = parse_error(text);
        assert!(matches!(e, JsonParseError::UnexpectedValueChar { kind: Some(JsonValueKind::Object), .. }), "text={text}, error={e:?}");
        assert_eq!(e.position(), position);
    }
    let e = parse_error("}");
    assert!(matches!(e, JsonParseError::UnexpectedValueChar { kind: None, position: 0 }), "error={e:?}");
    let e = parse_error(r#"{"1":2}}"#);
    assert!(matches!(e, JsonParseError::UnexpectedTrailingChar { kind: JsonValueKind::Object, position: 7 }), "error={e:?}");
    let e = parse_error("[{}}]");
    assert!(matches!(e, JsonParseError::UnexpectedValueChar { kind: Some(JsonValueKind::Array), position: 3 }), "error={e:?}");
    for text in ["{", r#"{"1" "#, r#"{"1": "#, r#"{"1": 2"#] {
        let e = parse_error(text);
        assert!(matches!(e, JsonParseError::UnexpectedEos { .. }), "text={text}, error={e:?}");
    }
    Ok(())
}

#[test]
fn error_context() {
    let text = r#"
{
  "foo": "bar"
  "ba"
}
"#;
    let e = parse_error(text);
    assert!(matches!(e, JsonParseError::UnexpectedValueChar { .. }), "error={e:?}");
    assert_eq!(e.get_line(text), Some(r#"  "ba""#));
    assert_eq!(e.get_line_and_column_numbers(text), Some((4, 3)));

    let text_eof = r#"[
"foo"#;
    let e = parse_error(text_eof);
    assert!(matches!(e, JsonParseError::UnexpectedEos { .. }), "error={e:?}");
    assert_eq!(e.get_line(text_eof), Some(r#""foo"#));
    assert_eq!(e.get_line_and_column_numbers(text_eof), Some((2, 5)));
}

struct Person {
    name: String,
    age: u32,
}

impl<'text, 'raw> TryFrom<RawJsonValue<'text, 'raw>> for Person {
    type Error = JsonParseError;

    fn try_from(value: RawJsonValue<'text, 'raw>) -> Result<Self, Self::Error> {
        let name = value.to_member("name")?.required()?;
        let age = value.to_member("age")?.required()?;
        Ok(Person { name: name.try_into()?, age: age.try_into()? })
    }
}

#[test]
fn to_member_required() -> Result<(), JsonParseError> {
    let person: Json<Person> = r#"{"name":"Alice","age":30}"#.parse()?;
    assert_eq!(person.0.name, "Alice");
    assert_eq!(person.0.age, 30);
    Ok(())
}

#[test]
fn to_member_optional() -> Result<(), JsonParseError> {
    let json = RawJson::parse(r#"{"name":"Alice","age":30}"#)?;
    let value = json.value();
    let name: String = value.to_member("name")?.optional().expect("some").try_into()?;
    assert_eq!(name, "Alice");
    let city = value.to_member("city")?.optional();
    assert_eq!(city, None);
    Ok(())
}

#[test]
fn required_member_missing() -> Result<(), JsonParseError> {
    let json = RawJson::parse(r#"{"name":"Alice"}"#)?;
    let e = json.value().to_member("age")?.required().expect_err("required member should be missing");
    assert!(matches!(e, JsonParseError::InvalidValue { kind: JsonValueKind::Object, position: 0, .. }));
    assert!(e.to_string().contains("required member 'age' is missing"), "unexpected error: {}", e.to_string());
    Ok(())
}

#[test]
fn member_access_requires_object() -> Result<(), JsonParseError> {
    let json = RawJson::parse("null")?;
    let e = json.value().to_member("x").expect_err("non-object should fail");
    assert!(matches!(e, JsonParseError::InvalidValue { kind: JsonValueKind::Null, position: 0, .. }));
    assert!(e.to_string().contains("expected Object, but found Null"), "unexpected error: {}", e.to_string());
    Ok(())
}

#[test]
fn to_member_optional_try_from() -> Result<(), JsonParseError> {
    let json = RawJson::parse(r#"{"n":42}"#)?;
    let value = json.value();

    let n1: Option<u64> = value.to_member("n")?.map(u64::try_from)?;
    assert_eq!(n1, Some(42));

    let n2: Option<u64> = value.to_member("n")?.optional().map(u64::try_from).transpose()?;
    assert_eq!(n2, Some(42));

    let missing: Option<u64> = value.to_member("missing")?.optional().map(u64::try_from).transpose()?;
    assert_eq!(missing, None);

    let n3: Option<u64> = value.to_member("n")?.try_into()?;
    assert_eq!(n3, Some(42));
    let n4: Option<u64> = value.to_member("missing")?.try_into()?;
    assert_eq!(n4, None);
    Ok(())
}

#[test]
fn to_path_member_success_required() -> Result<(), JsonParseError> {
    let json = RawJson::parse(r#"{"a":{"b":{"c":42}}}"#)?;
    let value = json.value();
    let c: u64 = value.to_path_member(&["a", "b", "c"])?.required()?.try_into()?;
    assert_eq!(c, 42);
    Ok(())
}

#[test]
fn get_value_by_position() {
    let json = RawJson::parse(r#"{"1":1,"2":null,"3":3}"#).expect("ok");
    let value = json.get_value_by_position(2).expect("some");
    assert_eq!(value.kind(), JsonValueKind::String);
    assert_eq!(value.position(), 1);
    assert_eq!(value.as_raw_str(), r#""1""#);
    let value = json.get_value_by_position(13).expect("some");
    assert_eq!(value.kind(), JsonValueKind::Null);
    assert_eq!(value.position(), 11);
}

#[test]
fn value_parent() {
    let text = r#"{"1":1,"2":[null],"3":3}"#;
    let json = RawJson::parse(text).expect("ok");
    let value = json.get_value_by_position(13).expect("some");
    assert_eq!(value.as_raw_str(), "null");
    let parent = value.parent().expect("parent");
    assert_eq!(parent.as_raw_str(), "[null]");
    let grand_parent = parent.parent().expect("parent");
    assert_eq!(grand_parent.as_raw_str(), text);
    assert_eq!(grand_parent.parent(), None);
}

#[test]
fn raw_json() {
    let text = r#"[ {"user": {"name": "John", "age": 30}, "count": 42} ]"#;
    let json = RawJson::parse(text).expect("bug");
    assert_eq!(json.to_string(), r#"[{"user":{"name":"John","age":30},"count":42}]"#);
}

#[test]
fn raw_json_owned_object() -> Result<(), JsonParseError> {
    let raw = nojson::RawJsonOwned::object(|f| {
        f.member("name", "Alice")?;
        f.member("age", 30)
    })?;
    assert_eq!(raw.to_string(), r#"{"name":"Alice","age":30}"#);
    let name: String = raw.value().to_member("name")?.required()?.try_into()?;
    assert_eq!(name, "Alice");
    Ok(())
}

#[test]
fn raw_json_owned_array() -> Result<(), JsonParseError> {
    let raw = nojson::RawJsonOwned::array(|f| {
        f.element("Alice")?;
        f.element(30)
    })?;
    assert_eq!(raw.to_string(), r#"["Alice",30]"#);
    let mut values = raw.value().to_array()?.into_iter();
    let name: String = values.next().expect("some").try_into()?;
    let age: u32 = values.next().expect("some").try_into()?;
    assert_eq!(name, "Alice");
    assert_eq!(age, 30);
    assert_eq!(values.next(), None);
    Ok(())
}

#[test]
fn parse_jsonc_mixed_comments() -> Result<(), JsonParseError> {
    let text = r#"{
        // Line comment at start
        // Multiple '//' comments
        "users": [ // Array with comments
            {
                "name": "Bob", /* inline block */
                "age": 25
            },
            /* Block comment between elements */
            {
                "name": "Carol",
                "age": 35 // Final line comment
            }
        ]
        /* Final block comment */
    }"#;
    let (json, comment_ranges) = RawJson::parse_jsonc(text)?;
    let users: Vec<_> = json.value().to_required_member("users")?.to_array()?.into_iter().collect();
    assert_eq!(users.len(), 2);
    let first_user_name: String = users[0].to_required_member("name")?.try_into()?;
    assert_eq!(first_user_name, "Bob");
    let second_user_name: String = users[1].to_required_member("name")?.try_into()?;
    assert_eq!(second_user_name, "Carol");
    assert_eq!(comment_ranges.len(), 7);
    Ok(())
}

#[test]
fn parse_jsonc_trailing_commas_array() -> Result<(), JsonParseError> {
    let text = r#"{
        "fruits": [
            "apple",
            "banana",
            "cherry",
        ],
        "numbers": [1, 2, 3,]
    }"#;
    let (json, _comment_ranges) = RawJson::parse_jsonc(text)?;
    let fruits: Vec<String> = json
        .value()
        .to_required_member("fruits")?
        .to_array()?
        .into_iter()
        .map(|item| item.try_into())
        .collect::<Result<Vec<_>, _>>()?;
    assert_eq!(fruits, vec!["apple", "banana", "cherry"]);
    let numbers: Vec<i32> = json
        .value()
        .to_required_member("numbers")?
        .to_array()?
        .into_iter()
        .map(|item| item.try_into())
        .collect::<Result<Vec<_>, _>>()?;
    assert_eq!(numbers, vec![1, 2, 3]);
    Ok(())
}

#[test]
fn parse_jsonc_trailing_commas_with_comments() -> Result<(), JsonParseError> {
    let text = r#"{
        "config": {
            "debug": true, // Enable debug mode
            "port": 8080, // Server port
        }, // End config
        "features": [
            "auth", // Authentication
            "logging", // Request logging
        ], // End features
    }"#;
    let (json, comment_ranges) = RawJson::parse_jsonc(text)?;
    let debug: bool = json.value().to_required_member("config")?.to_required_member("debug")?.try_into()?;
    assert_eq!(debug, true);
    let port: i32 = json.value().to_required_member("config")?.to_required_member("port")?.try_into()?;
    assert_eq!(port, 8080);
    let features: Vec<String> = json
        .value()
        .to_required_member("features")?
        .to_array()?
        .into_iter()
        .map(|item| item.try_into())
        .collect::<Result<Vec<_>, _>>()?;
    assert_eq!(features, vec!["auth", "logging"]);
    assert_eq!(comment_ranges.len(), 6);
    Ok(())
}

#[test]
fn parse_std_types() {
    assert_eq!("-1".parse::<Json<i8>>().ok().map(|j| j.0), Some(-1i8));
    assert_eq!("\"a\"".parse::<Json<String>>().ok().map(|j| j.0), Some("a".to_owned()));
    assert_eq!("123".parse::<Json<u32>>().ok().map(|j| j.0), Some(123u32));
    assert_eq!("true".parse::<Json<bool>>().ok().map(|j| j.0), Some(true));
    assert_eq!("false".parse::<Json<bool>>().ok().map(|j| j.0), Some(false));
    assert_eq!("null".parse::<Json<()>>().ok().map(|j| j.0), Some(()));
    assert_eq!("null".parse::<Json<Option<bool>>>().ok().map(|j| j.0), Some(None));
    assert_eq!("true".parse::<Json<Option<bool>>>().ok().map(|j| j.0), Some(Some(true)));
    assert_eq!("[1,2,3]".parse::<Json<Vec<i32>>>().ok().map(|j| j.0), Some(vec![1, 2, 3]));
    assert_eq!("[[1],[2],[3]]".parse::<Json<Vec<Vec<i32>>>>().ok().map(|j| j.0), Some(vec![vec![1], vec![2], vec![3]]));
}
