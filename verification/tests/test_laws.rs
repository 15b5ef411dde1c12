use nojson::{
    Json, JsonParseError, JsonValueKind, JsoncFormatter, JsoncLineBreaks, JsoncTrailingCommas,
    RawJson,
};

fn roundtrip_string(s: &str) {
    let text = Json(s.to_string()).to_string();
    let back: Json<String> = text.parse().expect("written string must parse");
    assert_eq!(back.0, s, "text={text}");
}

#[test]
fn string_roundtrip_plain_and_escaped() {
    roundtrip_string("");
    roundtrip_string("plain text");
    roundtrip_string("quote \" and backslash \\");
    roundtrip_string("slash / stays");
    roundtrip_string("line\nfeed\rreturn\ttab\u{8}back\u{c}feed");
    roundtrip_string("\u{0}\u{1}\u{1f}\u{7f}");
    roundtrip_string("é 日本 😀 mixed ascii");
}

#[test]
fn string_escape_forms() {
    assert_eq!(Json("\u{1}".to_string()).to_string(), "\"\\u0001\"");
    assert_eq!(Json("\u{7f}".to_string()).to_string(), "\"\\u007f\"");
    assert_eq!(Json("a\"b".to_string()).to_string(), "\"a\\\"b\"");
    assert_eq!(Json("\n".to_string()).to_string(), "\"\\n\"");
    assert_eq!(Json("é".to_string()).to_string(), "\"é\"");
}

#[test]
fn unicode_escapes_decode() {
    let back: Json<String> = "\"\\u00e9\\ud83d\\ude00\\u0041\"".parse().unwrap();
    assert_eq!(back.0, "é😀A");
}

#[test]
fn lone_surrogate_escape_is_rejected() {
    let e = RawJson::parse("\"\\ud83d\"").expect_err("a lone surrogate must be rejected");
    assert!(
        matches!(e, JsonParseError::UnexpectedValueChar { .. }),
        "error={e:?}"
    );
}

#[test]
fn integer_roundtrip_extremes() {
    for n in [i64::MIN, -1, 0, 1, 42, i64::MAX] {
        let text = Json(n).to_string();
        let back: Json<i64> = text.parse().unwrap();
        assert_eq!(back.0, n, "text={text}");
    }
    let text = Json(u64::MAX).to_string();
    assert_eq!(text, "18446744073709551615");
    let back: Json<u64> = text.parse().unwrap();
    assert_eq!(back.0, u64::MAX);
    let back: Json<i8> = Json(i8::MIN).to_string().parse().unwrap();
    assert_eq!(back.0, i8::MIN);
}

fn integer_error(text: &str, result: Result<Json<u8>, JsonParseError>) -> String {
    match result {
        Err(JsonParseError::InvalidValue {
            kind,
            position,
            error,
        }) => {
            assert_eq!(kind, JsonValueKind::Integer, "text={text}");
            assert_eq!(position, 0, "text={text}");
            error
        }
        other => panic!("text={text}: unexpected {other:?}"),
    }
}

#[test]
fn integer_out_of_range_messages() {
    assert_eq!(
        integer_error("300", "300".parse::<Json<u8>>()),
        "number too large to fit in target type"
    );
    assert_eq!(
        integer_error("-1", "-1".parse::<Json<u8>>()),
        "invalid digit found in string"
    );
    match "-129".parse::<Json<i8>>() {
        Err(JsonParseError::InvalidValue { error, .. }) => {
            assert_eq!(error, "number too small to fit in target type")
        }
        other => panic!("unexpected {other:?}"),
    }
}

#[test]
fn wrong_kind_is_reported() {
    match "true".parse::<Json<i32>>() {
        Err(JsonParseError::InvalidValue { kind, error, .. }) => {
            assert_eq!(kind, JsonValueKind::Boolean);
            assert_eq!(error, "expected Integer, but found Boolean");
        }
        other => panic!("unexpected {other:?}"),
    }
}

#[test]
fn each_syntax_error_variant() {
    assert!(matches!(
        RawJson::parse("[1, 2"),
        Err(JsonParseError::UnexpectedEos { position: 5, .. })
    ));
    assert!(matches!(
        RawJson::parse("[1] x"),
        Err(JsonParseError::UnexpectedTrailingChar {
            kind: JsonValueKind::Array,
            position: 4
        })
    ));
    assert!(matches!(
        RawJson::parse("[1,}"),
        Err(JsonParseError::UnexpectedValueChar { position: 3, .. })
    ));
    assert!(matches!(
        RawJson::parse("\"a\\x\""),
        Err(JsonParseError::UnexpectedValueChar { position: 3, .. })
    ));
}

#[test]
fn line_and_column_of_an_error() {
    let text = "{\n  \"a\": 1,\n  \"é\": x\n}";
    let e = RawJson::parse(text).expect_err("x is no value");
    let (line, column) = e.get_line_and_column_numbers(text).unwrap();
    assert_eq!((line, column), (3, 8));
    assert_eq!(e.get_line(text), Some("  \"é\": x"));
}

fn formatter(line_breaks: JsoncLineBreaks, commas: JsoncTrailingCommas) -> JsoncFormatter {
    JsoncFormatter {
        indent_size: 2,
        line_breaks,
        trailing_commas: commas,
    }
}

#[test]
fn formatted_text_never_ends_with_a_line_break() {
    let f = formatter(JsoncLineBreaks::Preserve, JsoncTrailingCommas::Preserve);
    for input in ["[1]\n", "[1]\n// tail\n", "/* a */ {\"a\": 1}\r\n\r\n", "1 /* b\n*/\n"] {
        let out = f.format(input).unwrap();
        assert!(!out.ends_with('\n'), "input={input:?} output={out:?}");
    }
}

#[test]
fn carriage_returns_outside_comments_are_dropped() {
    for lb in [JsoncLineBreaks::Preserve, JsoncLineBreaks::Always] {
        let f = formatter(lb, JsoncTrailingCommas::Preserve);
        for input in [
            "[1,\r\n2]\r\n",
            "{\"a\":\r1,\r\r\"b\": [\r]}",
            "// c\r\n[1, /* x\r\n y */ 2]\r",
        ] {
            let out = f.format(input).unwrap();
            assert!(!out.contains('\r'), "input={input:?} output={out:?}");
        }
    }
    let f = formatter(JsoncLineBreaks::Preserve, JsoncTrailingCommas::Preserve);
    assert_eq!(f.format("[1,\r\n2]").unwrap(), "[\n  1,\n  2\n]");
    assert_eq!(f.format("[1, /* a\rb */ 2]").unwrap(), "[1, /* a\rb */ 2]");
}

#[test]
fn formatter_keeps_lexemes_in_order() {
    let input = "{\"b\" /* c */ :-1.5e3, \"a\":[true ,null,\r\n\"x\\n\"],\"\":{}}";
    let lexemes = ["\"b\"", "-1.5e3", "\"a\"", "true", "null", "\"x\\n\"", "\"\""];
    for lb in [JsoncLineBreaks::Preserve, JsoncLineBreaks::Always] {
        for commas in [JsoncTrailingCommas::Preserve, JsoncTrailingCommas::Never, JsoncTrailingCommas::AlwaysMultiline] {
            let out = formatter(lb, commas).format(input).unwrap();
            let mut at = 0;
            for lexeme in lexemes {
                let found = out[at..].find(lexeme);
                assert!(found.is_some(), "lexeme={lexeme:?} output={out:?}");
                at += found.unwrap() + lexeme.len();
            }
        }
    }
}

#[test]
fn formatter_keeps_comments_in_order() {
    let input = "// head\r\n{ /* a */ \"k\" // b\n : [1 /* c\r\n   d */, 2], // e\n}\n/* tail */";
    let first_lines = ["// head", "/* a */", "// b", "/* c", "// e", "/* tail */"];
    for lb in [JsoncLineBreaks::Preserve, JsoncLineBreaks::Always] {
        for commas in [JsoncTrailingCommas::Preserve, JsoncTrailingCommas::Never, JsoncTrailingCommas::AlwaysMultiline] {
            let out = formatter(lb, commas).format(input).unwrap();
            let mut at = 0;
            for line in first_lines {
                let found = out[at..].find(line);
                assert!(found.is_some(), "comment={line:?} output={out:?}");
                let p = at + found.unwrap();
                let before = out.as_bytes().get(p.wrapping_sub(1)).copied();
                assert!(p == 0 || before == Some(b' ') || before == Some(b'\n'), "output={out:?}");
                at = p + line.len();
            }
            assert!(out.contains("d */"), "output={out:?}");
        }
    }
    let f = formatter(JsoncLineBreaks::Preserve, JsoncTrailingCommas::Preserve);
    assert_eq!(f.format("[1/*c*/,2]").unwrap(), "[1 /*c*/, 2]");
}

#[test]
fn formatter_ends_the_line_of_each_line_comment() {
    let inputs = [
        "// head\n{ \"k\" // b\n : 1 }",
        "[1, // one\n 2 // two\n]",
        "{ \"a\": // before the value\n [] }",
        "1 // tail",
    ];
    for input in inputs {
        for lb in [JsoncLineBreaks::Preserve, JsoncLineBreaks::Always] {
            for commas in [JsoncTrailingCommas::Preserve, JsoncTrailingCommas::Never, JsoncTrailingCommas::AlwaysMultiline] {
                let out = formatter(lb, commas).format(input).unwrap();
                let comments: Vec<&str> = input
                    .match_indices("//")
                    .map(|(p, _)| input[p..].split('\n').next().unwrap())
                    .collect();
                let found: Vec<&str> = out
                    .match_indices("//")
                    .map(|(p, _)| out[p..].split('\n').next().unwrap())
                    .collect();
                // Each line comment keeps a line of its own to the end: nothing that
                // followed it in the input is drawn into it.
                assert_eq!(found, comments, "output={out:?}");
            }
        }
    }
    let f = formatter(JsoncLineBreaks::Preserve, JsoncTrailingCommas::Preserve);
    assert_eq!(f.format("{ \"a\": // c\n 1 }").unwrap(), "{\n  \"a\": // c\n  1\n}");
}

#[test]
fn formatted_text_keeps_non_ascii_bytes() {
    let f = formatter(JsoncLineBreaks::Always, JsoncTrailingCommas::Never);
    assert_eq!(
        f.format("{\"日本\": \"語\",}").unwrap(),
        "{\n  \"日本\": \"語\"\n}"
    );
}

#[test]
fn always_multiline_adds_a_trailing_comma() {
    let f = formatter(JsoncLineBreaks::Always, JsoncTrailingCommas::AlwaysMultiline);
    assert_eq!(f.format("[1, 2]").unwrap(), "[\n  1,\n  2,\n]");
    assert_eq!(f.format("[]").unwrap(), "[]");
}

#[test]
fn formatter_rejects_what_the_parser_rejects() {
    let f = formatter(JsoncLineBreaks::Preserve, JsoncTrailingCommas::Preserve);
    let e = f.format("[1, 2").expect_err("unterminated array");
    assert!(matches!(e, JsonParseError::UnexpectedEos { position: 5, .. }));
}

fn check_subtree(json: &RawJson<'_>, v: nojson::RawJsonValue<'_, '_>) {
    let found = json.get_value_by_position(v.position()).unwrap();
    assert_eq!(found.as_raw_str(), v.as_raw_str());
    assert_eq!(found.position(), v.position());
    match v.kind() {
        JsonValueKind::Array => {
            for child in v.to_array().unwrap() {
                let parent = child.parent().unwrap();
                assert_eq!(parent.position(), v.position());
                check_subtree(json, child);
            }
        }
        JsonValueKind::Object => {
            for (name, value) in v.to_object().unwrap() {
                assert_eq!(name.parent().unwrap().position(), v.position());
                assert_eq!(value.parent().unwrap().position(), v.position());
                check_subtree(json, name);
                check_subtree(json, value);
            }
        }
        _ => {}
    }
}

#[test]
fn position_lookup_and_parent_agree_with_the_tree() {
    let text = "{\"a\": [1, {\"b\": null}, []], \"c\": \"x\", \"d\": {}}";
    let json = RawJson::parse(text).unwrap();
    check_subtree(&json, json.value());
    assert!(json.value().parent().is_none());
    assert!(json.get_value_by_position(text.len()).is_none());
}

#[test]
fn bool_roundtrip() {
    for b in [true, false] {
        let text = Json(b).to_string();
        let back: Json<bool> = text.parse().unwrap();
        assert_eq!(back.0, b);
    }
}

#[test]
fn char_conversion() {
    let c: Json<char> = "\"é\"".parse().unwrap();
    assert_eq!(c.0, 'é');
    let c: Json<char> = "\"\\u00e9\"".parse().unwrap();
    assert_eq!(c.0, 'é');
    match "\"\"".parse::<Json<char>>() {
        Err(JsonParseError::InvalidValue { error, .. }) => assert_eq!(
            error,
            "expected a string with exactly one character, but got an empty string"
        ),
        other => panic!("unexpected {other:?}"),
    }
    match "\"ab\"".parse::<Json<char>>() {
        Err(JsonParseError::InvalidValue { error, .. }) => assert_eq!(
            error,
            "expected a string with exactly one character, but got multiple characters"
        ),
        other => panic!("unexpected {other:?}"),
    }
}

#[test]
fn option_and_collection_conversions() {
    let v: Json<Vec<Option<i128>>> = "[1, null, -170141183460469231731687303715884105728]"
        .parse()
        .unwrap();
    assert_eq!(v.0, vec![Some(1), None, Some(i128::MIN)]);
    let d: Json<std::collections::VecDeque<u8>> = "[3, 4]".parse().unwrap();
    assert_eq!(d.0, std::collections::VecDeque::from(vec![3, 4]));
    assert_eq!(Json(d.0).to_string(), "[3,4]");
    let r: Json<std::rc::Rc<bool>> = "true".parse().unwrap();
    assert!(*r.0);
}

#[test]
fn parse_errors_point_inside_the_text() {
    let cases = ["", "[\"é\u{1}\"]", "{\"ä\": ü}", "[1, 2", "\"日本", "nü", "[1] ö", "{\"a\":1,}"];
    for text in cases {
        let e = RawJson::parse(text).expect_err("must fail");
        match e {
            JsonParseError::UnexpectedEos { position, .. } => assert_eq!(position, text.len()),
            _ => {
                let p = e.position();
                assert!(p < text.len() && text.is_char_boundary(p), "text={text:?} error={e:?}");
                assert!(e.get_line_and_column_numbers(text).is_some());
                assert!(e.get_line(text).is_some());
            }
        }
    }
}

#[test]
fn array_callbacks_see_the_next_level_and_close_at_the_outer_one() {
    let text = nojson::json(|f| {
        f.set_indent_size(2);
        f.set_spacing(true);
        let outer = f.get_level();
        assert_eq!(outer, 0);
        f.array(|a| {
            a.value_with(|g| {
                assert_eq!(g.get_level(), 1);
                g.set_indent_size(0);
                g.value([2, 3])
            })?;
            a.element(1)
        })?;
        assert_eq!(f.get_level(), 0);
        assert_eq!(f.get_indent_size(), 2);
        Ok(())
    })
    .to_string();
    assert_eq!(text, "[\n  [2, 3], 1\n]");
}
