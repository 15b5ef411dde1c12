use std::borrow::Cow;

use nojson::{DisplayJson, Json, JsonFormatter, JsonParseError, json};

#[test]
fn string() {
    assert_eq!(
        json(|f| f.value(Cow::Borrowed("foo"))).to_string(),
        "\"foo\""
    );
}

#[test]
fn array() {
    assert_eq!(Json([1, 2, 3]).to_string(), "[1,2,3]");
    assert_eq!(Json([Some(1), None, Some(3)]).to_string(), "[1,null,3]");

    assert_eq!(
        format!(
            "\n{}",
            json(|f| {
                f.set_indent_size(2);
                f.set_spacing(true);
                f.value([1, 2, 3])
            })
            .to_string()
        ),
        r#"
[
  1,
  2,
  3
]"#
    );

    assert_eq!(
        format!(
            "\n{}",
            json(|f| {
                f.set_indent_size(2);
                f.set_spacing(true);
                f.value([vec![1], vec![2, 3]])
            })
            .to_string()
        ),
        r#"
[
  [
    1
  ],
  [
    2,
    3
  ]
]"#
    );
    assert_eq!(
        format!(
            "\n{}",
            json(|f| {
                f.set_indent_size(2);
                f.set_spacing(true);
                f.value([
                    &vec![1] as &dyn DisplayJson,
                    &json(|f| {
                        f.set_indent_size(0);
                        f.value(vec![2, 3])
                    }),
                ])
            })
            .to_string()
        ),
        r#"
[
  [
    1
  ],
  [2, 3]
]"#
    );
}

#[test]
fn raw_json_owned_json() -> Result<(), JsonParseError> {
    let raw = nojson::RawJsonOwned::json(|f| f.value([1, 2, 3]))?;
    assert_eq!(raw.to_string(), "[1,2,3]");

    let values: Vec<u8> = raw.value().try_into()?;
    assert_eq!(values, vec![1, 2, 3]);
    Ok(())
}

#[test]
fn deep_nesting_crossing_u16_width_does_not_panic() {
    struct Nested(u32);
    impl DisplayJson for Nested {
        fn fmt(&self, f: &mut JsonFormatter) -> core::fmt::Result {
            if self.0 == 0 {
                f.value(0)
            } else {
                f.array(|f| f.element(Nested(self.0 - 1)))
            }
        }
    }

    let output = json(|f| {
        f.set_indent_size(128);
        f.value(Nested(513))
    });
    let text = output.to_string();
    assert!(text.ends_with(']'));
}

#[test]
fn raw_value_written_back_compactly() {
    let text = r#"[ {"user": {"name": "John", "age": 30}, "count": 42, "s": "a\u0041\n"} ]"#;
    let json = nojson::RawJson::parse(text).expect("valid");
    assert_eq!(
        Json(&json).to_string(),
        r#"[{"user":{"name":"John","age":30},"count":42,"s":"aA\n"}]"#
    );
    assert_eq!(json.to_string(), Json(&json).to_string());
    assert_eq!(json.text(), text);
    let pretty = nojson::json(|f| {
        f.set_indent_size(2);
        f.set_spacing(true);
        f.value(json.value())
    })
    .to_string();
    assert_eq!(
        pretty,
        "[\n  {\n    \"user\": {\n      \"name\": \"John\",\n      \"age\": 30\n    },\n    \"count\": 42,\n    \"s\": \"aA\\n\"\n  }\n]"
    );
}

#[test]
fn object() {
    let members: [(&str, Option<&str>); 3] = [("1", None), ("2", Some("foo")), ("3", Some("ba\nr"))];
    let write = |spacing: bool, indent: usize| {
        nojson::json(move |f| {
            f.set_indent_size(indent);
            f.set_spacing(spacing);
            f.object(|o| o.members(&members))
        })
        .to_string()
    };
    assert_eq!(write(false, 0), r#"{"1":null,"2":"foo","3":"ba\nr"}"#);
    assert_eq!(write(true, 0), r#"{ "1": null, "2": "foo", "3": "ba\nr" }"#);
    assert_eq!(
        format!("\n{}", write(true, 2)),
        r#"
{
  "1": null,
  "2": "foo",
  "3": "ba\nr"
}"#
    );
    let nested = nojson::json(|f| {
        f.set_indent_size(2);
        f.set_spacing(true);
        f.array(|a| a.value_with(|g| g.object(|o| o.members(&members))))
    })
    .to_string();
    assert_eq!(
        format!("\n{}", nested),
        r#"
[
  {
    "1": null,
    "2": "foo",
    "3": "ba\nr"
  }
]"#
    );
}
