//! Typed facts: kinds, subject grammar, schemas.

use ecphoria_core::json::{parse, Json};
use ecphoria_core::memory::facts::{has_provenance, FactKind, FactRules, FactValidation, SchemaTexts};
use ecphoria_core::memory::schema::Validator;

fn j(text: &str) -> Json {
    parse(text).expect("a JSON text")
}

/// Schema documents of the shape that the facts of a team have.
fn texts() -> SchemaTexts {
    SchemaTexts {
        envelope: r#"{
            "type": "object",
            "properties": {
                "kind": {"type": "string", "enum": ["decision", "convention", "incident",
                    "ticket_summary", "run_lesson", "flaky_test", "hotspot", "finding", "other"]},
                "paths": {"type": "array", "items": {"type": "string"}},
                "provenance": {
                    "type": "object",
                    "required": ["source"],
                    "properties": {"source": {"type": "string", "minLength": 1}, "ref": {"type": "string"}}
                }
            }
        }"#.to_string(),
        decision: r#"{"type": "object", "properties": {"status": {"enum": ["proposed", "accepted"]}}}"#.to_string(),
        convention: r#"{"type": "object"}"#.to_string(),
        incident: r#"{
            "type": "object",
            "required": ["service", "occurred_at"],
            "properties": {
                "service": {"type": "string"},
                "occurred_at": {"type": "string", "format": "date-time"},
                "severity": {"enum": ["sev1", "sev2", "sev3"]}
            }
        }"#.to_string(),
        ticket_summary: r#"{
            "type": "object",
            "required": ["tracker", "key"],
            "properties": {"tracker": {"enum": ["jira", "gitlab"]}, "key": {"type": "string"}}
        }"#.to_string(),
        run_lesson: r#"{"type": "object", "required": ["workflow"]}"#.to_string(),
        flaky_test: r#"{"type": "object", "required": ["test_path", "test_name"]}"#.to_string(),
        hotspot: r#"{"type": "object", "required": ["path"]}"#.to_string(),
        finding: r#"{"type": "object", "required": ["tool", "rule"]}"#.to_string(),
        other: r#"{"type": "object"}"#.to_string(),
    }
}

fn validate(subject: Option<&str>, metadata: &Json) -> Vec<String> {
    let rules = FactRules::compile(&texts()).expect("the schemas compile");
    ecphoria_core::memory::facts::validate(&rules, subject, metadata)
}

#[test]
fn every_embedded_schema_compiles_and_uses_supported_keywords_only() {
    // Compiling is the assertion: `Validator::compile` rejects an unsupported keyword, so a
    // schema that grows a `$ref` or a `oneOf` fails here rather than silently validating less.
    let texts = texts();
    assert!(FactRules::compile(&texts).is_some());
    for kind in FactKind::all() {
        let doc = j(kind.schema_json(&texts));
        Validator::compile(&doc).unwrap_or_else(|e| panic!("{}: {e}", kind.as_str()));
    }
}

#[test]
fn kinds_round_trip_through_their_wire_name() {
    for kind in FactKind::all() {
        assert_eq!(FactKind::parse(kind.as_str()), Some(kind));
    }
    assert_eq!(FactKind::parse("Decision"), None);
    assert_eq!(FactKind::parse("nonsense"), None);
}

#[test]
fn a_well_formed_incident_passes() {
    let errors = validate(
        Some("incident:checkout-api:2026-09-14"),
        &j(r#"{ "kind": "incident", "service": "checkout-api", "occurred_at": "2026-09-14T03:12:00Z", "severity": "sev2", "paths": ["services/checkout/**"], "provenance": {"source": "pagerduty", "ref": "PD-4412"} }"#),
    );
    assert!(errors.is_empty(), "{errors:?}");
}

#[test]
fn an_incident_without_service_or_date_is_refused() {
    let errors = validate(
        Some("incident:checkout-api:2026-09-14"),
        &j(r#"{"kind": "incident"}"#),
    );
    assert_eq!(errors.len(), 2, "{errors:?}");
    assert!(errors.iter().any(|e| e.contains("`service`")), "{errors:?}");
    assert!(
        errors.iter().any(|e| e.contains("`occurred_at`")),
        "{errors:?}"
    );
}

#[test]
fn the_subject_grammar_is_what_makes_supersession_work() {
    // Right kind, wrong key shape: two writers would produce two active memories.
    let errors = validate(
        Some("the checkout outage"),
        &j(r#"{"kind": "incident", "service": "checkout", "occurred_at": "2026-09-14T03:12:00Z"}"#),
    );
    assert_eq!(errors.len(), 1, "{errors:?}");
    assert!(
        errors[0].contains("incident:<service>:<yyyy-mm-dd>"),
        "{}",
        errors[0]
    );
}

#[test]
fn a_missing_subject_on_a_typed_fact_is_an_error() {
    let errors = validate(None, &j(r#"{"kind": "decision", "status": "accepted"}"#));
    assert_eq!(errors.len(), 1, "{errors:?}");
    assert!(errors[0].contains("decision:<area>:<slug>"));
}

#[test]
fn each_kind_accepts_its_documented_subject_form() {
    let cases = [
        ("decision", "decision:billing:use-stripe", j(r#"{}"#)),
        (
            "convention",
            "convention:api:no-breaking-changes",
            j(r#"{}"#),
        ),
        (
            "incident",
            "incident:payments:2026-01-02",
            j(r#"{"service": "payments", "occurred_at": "2026-01-02T00:00:00Z"}"#),
        ),
        (
            "ticket_summary",
            "ticket:jira:proj-123",
            j(r#"{"tracker": "jira", "key": "PROJ-123"}"#),
        ),
        (
            "run_lesson",
            "run_lesson:release-train:flaky-migrations",
            j(r#"{"workflow": "release-train"}"#),
        ),
        (
            "flaky_test",
            "flaky_test:tests/api/test_orders.py::test_total",
            j(r#"{"test_path": "tests/api/test_orders.py", "test_name": "test_total"}"#),
        ),
        (
            "hotspot",
            "hotspot:src/billing/invoice.rs",
            j(r#"{"path": "src/billing/invoice.rs"}"#),
        ),
        (
            "finding",
            "finding:semgrep:python.lang.security.audit",
            j(r#"{"tool": "semgrep", "rule": "python.lang.security.audit"}"#),
        ),
    ];
    for (kind, subject, extra) in cases {
        let mut fields = vec![("kind".to_string(), Json::Str(kind.to_string()))];
        match extra {
            Json::Object(more) => fields.extend(more),
            _ => unreachable!(),
        }
        let metadata = Json::Object(fields);
        let errors = validate(Some(subject), &metadata);
        assert!(errors.is_empty(), "{kind}: {errors:?}");
    }
}

#[test]
fn other_is_the_escape_hatch_and_imposes_no_grammar() {
    assert!(validate(None, &j(r#"{"kind": "other"}"#)).is_empty());
    assert!(validate(Some("anything at all"), &j(r#"{"kind": "other"}"#)).is_empty());
}

#[test]
fn an_untyped_memory_is_still_held_to_the_envelope() {
    assert!(validate(Some("user.city"), &j(r#"{"note": "free form"}"#)).is_empty());
    let errors = validate(Some("user.city"), &j(r#"{"paths": "src/main.rs"}"#));
    assert_eq!(errors.len(), 1, "{errors:?}");
    assert!(errors[0].contains("expected array"), "{}", errors[0]);
}

#[test]
fn an_unknown_kind_names_the_vocabulary() {
    let errors = validate(Some("x:y:z"), &j(r#"{"kind": "brainwave"}"#));
    assert!(
        errors
            .iter()
            .any(|e| e.contains("unknown fact kind `brainwave`")),
        "{errors:?}"
    );
    assert!(
        errors.iter().any(|e| e.contains("ticket_summary")),
        "{errors:?}"
    );
}

#[test]
fn an_empty_provenance_object_does_not_count_as_provenance() {
    assert!(!has_provenance(&j(r#"{}"#), &[]));
    assert!(!has_provenance(&j(r#"{"provenance": {}}"#), &[]));
    assert!(!has_provenance(
        &j(r#"{"provenance": {"ref": "PR-12"}}"#),
        &[]
    ));
    assert!(!has_provenance(
        &j(r#"{"provenance": {"source": "   "}}"#),
        &[]
    ));
    assert!(has_provenance(
        &j(r#"{"provenance": {"source": "gitlab"}}"#),
        &[]
    ));
}

#[test]
fn source_event_ids_are_provenance_on_their_own() {
    assert!(has_provenance(&j(r#"{}"#), &[7]));
}

#[test]
fn validation_modes_parse_from_config_text() {
    assert_eq!(FactValidation::parse("strict"), Some(FactValidation::Strict));
    assert_eq!(FactValidation::parse("warn"), Some(FactValidation::Warn));
    assert_eq!(FactValidation::parse("off"), Some(FactValidation::Off));
    assert_eq!(FactValidation::parse("nonsense"), None);
    assert!(FactValidation::default().is_off());
}

#[test]
fn a_ticket_summary_needs_a_known_tracker() {
    let errors = validate(
        Some("ticket:notion:abc"),
        &j(r#"{"kind": "ticket_summary", "tracker": "notion", "key": "ABC"}"#),
    );
    assert_eq!(errors.len(), 1, "{errors:?}");
    assert!(errors[0].starts_with("metadata.tracker:"), "{}", errors[0]);
}

#[test]
fn provenance_shape_is_checked_even_when_it_is_not_required() {
    let errors = validate(
        Some("decision:api:versioning"),
        &j(r#"{"kind": "decision", "provenance": {"ref": "ADR-7"}}"#),
    );
    assert_eq!(errors.len(), 1, "{errors:?}");
    assert!(
        errors[0].contains("missing required field `source`"),
        "{}",
        errors[0]
    );
}


#[test]
fn a_wrong_type_at_the_root_is_told_without_the_root() {
    let mut texts = texts();
    texts.envelope = "{}".to_string();
    texts.other = r#"{"required": ["x"]}"#.to_string();
    let rules = FactRules::compile(&texts).unwrap();
    let errors = ecphoria_core::memory::facts::validate(&rules, None, &j(r#"{"kind": "other"}"#));
    assert_eq!(errors, vec!["metadata: missing required field `x`"]);
}

#[test]
fn a_broken_schema_document_compiles_to_nothing() {
    let mut broken = texts();
    broken.envelope = "not json".to_string();
    assert!(FactRules::compile(&broken).is_none());
    let mut unknown = texts();
    unknown.finding = r#"{"oneOf": []}"#.to_string();
    assert!(FactRules::compile(&unknown).is_none());
}

#[test]
fn the_messages_on_subjects_are_exact() {
    assert_eq!(
        validate(Some(""), &j(r#"{"kind": "hotspot", "path": "p"}"#)),
        vec!["subject: a `hotspot` fact needs a subject of the form `hotspot:<path>` — without it nothing supersedes anything"]
    );
    assert_eq!(
        validate(Some("hotspot: x"), &j(r#"{"kind": "hotspot", "path": "p"}"#)),
        vec!["subject: `hotspot: x` does not match the `hotspot` grammar `hotspot:<path>`"]
    );
}

#[test]
fn only_the_default_mode_is_off() {
    assert!(FactValidation::Off.is_off());
    assert!(!FactValidation::Warn.is_off());
    assert!(!FactValidation::Strict.is_off());
}
