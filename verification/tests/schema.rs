//! The schema validator.

use ecphoria_core::json::{parse, Json};
use ecphoria_core::memory::schema::Validator;

fn j(text: &str) -> Json {
    parse(text).expect("a JSON text")
}

fn compile(schema: Json) -> Validator {
    Validator::compile(&schema).expect("schema compiles")
}

#[test]
fn accepts_a_document_that_satisfies_every_assertion() {
    let v = compile(j(r#"{ "type": "object", "required": ["area"], "properties": { "area": {"type": "string", "minLength": 1}, "tags": {"type": "array", "items": {"type": "string"}, "uniqueItems": true} } }"#));
    assert!(v
        .validate(&j(r#"{"area": "billing", "tags": ["a", "b"]}"#))
        .is_empty());
}

#[test]
fn reports_every_violation_not_just_the_first() {
    let v = compile(j(r#"{ "type": "object", "required": ["area", "owner"], "properties": {"area": {"type": "string"}} }"#));
    let errors = v.validate(&j(r#"{"area": 12}"#));
    assert_eq!(errors.len(), 2, "{errors:?}");
    assert!(errors
        .iter()
        .any(|e| e.contains("missing required field `owner`")));
    assert!(errors
        .iter()
        .any(|e| e.contains("expected string, got integer")));
}

#[test]
fn an_unsupported_keyword_is_a_compile_error_not_a_silent_pass() {
    let err = Validator::compile(&j(r#"{"oneOf": [{"type": "string"}]}"#)).unwrap_err();
    assert!(err.contains("unsupported schema keyword `oneOf`"), "{err}");
}

#[test]
fn an_unknown_format_is_a_compile_error() {
    let err =
        Validator::compile(&j(r#"{"type": "string", "format": "date_time"}"#)).unwrap_err();
    assert!(err.contains("unsupported `format`"), "{err}");
}

#[test]
fn an_invalid_pattern_is_a_compile_error() {
    let err = Validator::compile(&j(r#"{"type": "string", "pattern": "("}"#)).unwrap_err();
    assert!(err.contains("invalid `pattern` regex"), "{err}");
}

#[test]
fn pattern_and_length_are_enforced_on_strings() {
    let v = compile(j(r#"{"type": "string", "pattern": "^inc-[0-9]+$", "maxLength": 8}"#));
    assert!(v.validate(&j(r#""inc-42""#)).is_empty());
    assert_eq!(
        v.validate(&j(r#""INC-42""#)).len(),
        1,
        "wrong case: pattern only"
    );
    assert_eq!(
        v.validate(&j(r#""inc-123456789""#)).len(),
        1,
        "too long: length only"
    );
    // Both at once, and both reported — the point of collecting rather than short-circuiting.
    assert_eq!(v.validate(&j(r#""INC-123456789""#)).len(), 2);
}

#[test]
fn formats_are_actually_checked() {
    let v = compile(j(r#"{"type": "string", "format": "date-time"}"#));
    assert!(v.validate(&j(r#""2026-09-19T10:00:00Z""#)).is_empty());
    assert_eq!(v.validate(&j(r#""2026-09-19""#)).len(), 1);

    let d = compile(j(r#"{"type": "string", "format": "date"}"#));
    assert!(d.validate(&j(r#""2026-09-19""#)).is_empty());
    assert_eq!(d.validate(&j(r#""19/09/2026""#)).len(), 1);

    let u = compile(j(r#"{"type": "string", "format": "uuid"}"#));
    assert!(u
        .validate(&j(r#""4d0cf3a0-9a9c-4c1a-9c2a-1f2e3d4c5b6a""#))
        .is_empty());
    assert_eq!(u.validate(&j(r#""not-a-uuid""#)).len(), 1);
}

#[test]
fn additional_properties_false_rejects_unknown_fields() {
    let v = compile(j(r#"{ "type": "object", "additionalProperties": false, "properties": {"a": {"type": "string"}} }"#));
    assert!(v.validate(&j(r#"{"a": "x"}"#)).is_empty());
    let errors = v.validate(&j(r#"{"a": "x", "b": 1}"#));
    assert_eq!(errors, vec!["<root>: unknown field `b`"]);
}

#[test]
fn nested_paths_are_reported_so_the_writer_knows_where_to_look() {
    let v = compile(j(r#"{ "type": "object", "properties": { "provenance": { "type": "object", "required": ["source"], "properties": {"source": {"type": "string"}} } } }"#));
    let errors = v.validate(&j(r#"{"provenance": {}}"#));
    assert_eq!(errors, vec!["provenance: missing required field `source`"]);
}

#[test]
fn array_bounds_uniqueness_and_item_types() {
    let v = compile(j(r#"{ "type": "array", "minItems": 1, "maxItems": 2, "uniqueItems": true, "items": {"type": "string"} }"#));
    assert!(v.validate(&j(r#"["a"]"#)).is_empty());
    assert_eq!(v.validate(&j(r#"[]"#)).len(), 1);
    assert_eq!(v.validate(&j(r#"["a", "a"]"#)).len(), 1);
    assert_eq!(v.validate(&j(r#"["a", "b", "c"]"#)).len(), 1);
    assert_eq!(v.validate(&j(r#"[1]"#)).len(), 1);
}

#[test]
fn integer_and_number_are_distinguished_and_bounded() {
    let i = compile(j(r#"{"type": "integer", "minimum": 0, "maximum": 10}"#));
    assert!(i.validate(&j(r#"5"#)).is_empty());
    assert_eq!(i.validate(&j(r#"1.5"#)).len(), 1);
    assert_eq!(i.validate(&j(r#"11"#)).len(), 1);

    let n = compile(j(r#"{"type": "number"}"#));
    assert!(n.validate(&j(r#"1.5"#)).is_empty());
    assert!(n.validate(&j(r#"2"#)).is_empty());
}

#[test]
fn enum_and_const_are_enforced() {
    let e = compile(j(r#"{"enum": ["low", "high"]}"#));
    assert!(e.validate(&j(r#""low""#)).is_empty());
    assert_eq!(e.validate(&j(r#""medium""#)).len(), 1);

    let c = compile(j(r#"{"const": "incident"}"#));
    assert!(c.validate(&j(r#""incident""#)).is_empty());
    assert_eq!(c.validate(&j(r#""decision""#)).len(), 1);
}

#[test]
fn a_length_limit_counts_characters_not_bytes() {
    let v = compile(j(r#"{"type": "string", "maxLength": 3}"#));
    assert!(v.validate(&j(r#""éàü""#)).is_empty());
}


#[test]
fn every_wrong_keyword_has_its_message() {
    let cases = [
        ("1", "#: a schema must be an object"),
        (r#"{"type": 1}"#, "#: `type` must be a string or an array"),
        (r#"{"type": ["string", 1]}"#, "#: `type` entries must be strings"),
        (r#"{"properties": []}"#, "#: `properties` must be an object"),
        (r#"{"properties": {"a": {"items": 3}}}"#, "#/a/items: a schema must be an object"),
        (r#"{"required": "a"}"#, "#: `required` must be an array"),
        (r#"{"required": [1]}"#, "#: `required` entries must be strings"),
        (r#"{"pattern": 1}"#, "#: `pattern` must be a string"),
        (r#"{"format": 1}"#, "#: `format` must be a string"),
        (
            r#"{"format": "time"}"#,
            "#: unsupported `format` `time` — supported: date-time, date, uri, uuid",
        ),
        (
            r#"{"oneOf": []}"#,
            "#: unsupported schema keyword `oneOf` — see memory::schema::SUPPORTED",
        ),
    ];
    for (schema, message) in cases {
        assert_eq!(Validator::compile(&j(schema)).unwrap_err(), message);
    }
}

#[test]
fn every_violation_has_its_message() {
    let cases = [
        (r#"{"type": ["string", "null"]}"#, "1.5", "<root>: expected string or null, got number"),
        (r#"{"enum": ["a", 1, [true, {"k": null}]]}"#, "2", "<root>: must be one of `a`, `1`, `[true,{\"k\":null}]`"),
        (r#"{"const": 1.0}"#, "1", "<root>: must be `1.0`"),
        (r#"{"minLength": 2}"#, r#""é""#, "<root>: must be at least 2 characters"),
        (r#"{"maxLength": 1}"#, r#""ab""#, "<root>: must be at most 1 characters"),
        (r#"{"pattern": "^a$"}"#, r#""b""#, "<root>: must match /^a$/"),
        (r#"{"format": "uri"}"#, r#""no scheme""#, "<root>: not a valid uri"),
        (r#"{"minimum": 0.5}"#, "0", "<root>: must be >= 0.5"),
        (r#"{"maximum": 10}"#, "10.5", "<root>: must be <= 10"),
        (r#"{"minItems": 1}"#, "[]", "<root>: must have at least 1 items"),
        (r#"{"maxItems": 0}"#, "[1]", "<root>: must have at most 0 items"),
        (r#"{"uniqueItems": true}"#, r#"[{"a":1,"b":2},{"b":2,"a":1},1,1]"#, "<root>: duplicate item `{\"a\":1,\"b\":2}`"),
        (r#"{"items": {"properties": {"a": {"type": "null"}}}}"#, r#"[{}, {"a": 1}]"#, "[1].a: expected null, got integer"),
    ];
    for (schema, value, message) in cases {
        assert_eq!(compile(j(schema)).validate(&j(value)), vec![message]);
    }
}

#[test]
fn a_uri_needs_a_scheme_and_no_white_space() {
    let v = compile(j(r#"{"format": "uri"}"#));
    assert!(v.validate(&j(r#""https://example.com/x""#)).is_empty());
    assert_eq!(v.validate(&j(r#""https://exa mple.com""#)).len(), 1);
}

#[test]
fn negative_numbers_and_zeros_are_ordered() {
    let v = compile(j(r#"{"minimum": -1.5, "maximum": 0}"#));
    assert!(v.validate(&j("-1.5")).is_empty());
    assert!(v.validate(&j("-0.0")).is_empty());
    assert!(v.validate(&j("-1")).is_empty());
    assert_eq!(v.validate(&j("-1.6")), vec!["<root>: must be >= -1.5"]);
    assert_eq!(v.validate(&j("0.1")), vec!["<root>: must be <= 0"]);
}

#[test]
fn json_texts_are_read_and_written() {
    assert!(parse("{").is_none());
    for text in [
        r#"null"#,
        r#"[true,false,-3,18446744073709551615,1.5,1e+100]"#,
        r#"{"a":"\"\\\n\u0001é","b":[]}"#,
    ] {
        assert_eq!(j(text).to_text(), text);
    }
    assert!(j(r#"{"a":1,"b":[2]}"#).equal(&j(r#"{"b":[2],"a":1}"#)));
    assert!(!j("1").equal(&j("1.0")));
    assert!(j("0.0").equal(&j("-0.0")));
}
