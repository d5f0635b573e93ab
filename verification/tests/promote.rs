//! Promotion of webhook events.

use ecphoria_core::ingest::promote::{default_rules, promote, slug, vendor};
use ecphoria_core::json::parse;
use ecphoria_core::memory::event::Event;

fn ev(source: &str, event_type: &str, payload: &str) -> Event {
    Event {
        id: 1,
        source: source.to_string(),
        event_type: event_type.to_string(),
        payload: parse(payload).expect("a JSON text"),
        timestamp: 0,
        parent_id: None,
        trace_id: None,
        tags: vec![],
        idempotency_key: None,
    }
}

#[test]
fn merged_pull_request_becomes_a_memory() {
    let event = ev(
        "github/acme/api",
        "pull_request.closed",
        r#"{
            "repository": "acme/api",
            "sender": "alice",
            "raw": {"pull_request": {"number": 42, "title": "Fix the shard router", "merged": true}}
        }"#,
    );
    let p = promote(&event).expect("should promote");
    assert_eq!(p.subject, "acme/api#pr-42");
    assert!(p.content.contains("#42"), "{}", p.content);
    assert!(p.content.contains("Fix the shard router"));
    assert!(p.content.contains("merged by alice"));
    assert_eq!(
        p.content,
        "Pull request #42 in acme/api — \"Fix the shard router\" — merged by alice."
    );
}

#[test]
fn closed_issue_carries_its_body() {
    // The body is where the resolution is written: a bare status line would not be worth keeping.
    let event = ev(
        "github/acme/api",
        "issue.closed",
        r#"{
            "repository": "acme/api",
            "sender": "bob",
            "raw": {"issue": {
                "number": 7,
                "title": "Quorum loss after failover",
                "body": "Root cause: the standby had a stale term. Fixed by bumping on promote."
            }}
        }"#,
    );
    let p = promote(&event).expect("should promote");
    assert_eq!(p.subject, "acme/api#issue-7");
    assert!(p.content.contains("Root cause"), "{}", p.content);
}

#[test]
fn redelivery_and_state_changes_share_one_subject() {
    // Providers deliver twice, and an issue can close, reopen and close again. All of it must
    // collapse onto one key.
    let mk = |action: &str| {
        ev(
            "github/acme/api",
            &format!("issue.{action}"),
            r#"{
                "repository": "acme/api",
                "sender": "alice",
                "raw": {"issue": {"number": 7, "title": "Flaky test", "body": "x"}}
            }"#,
        )
    };
    let a = promote(&mk("closed")).unwrap();
    let b = promote(&mk("closed")).unwrap();
    let c = promote(&mk("reopened")).unwrap();
    assert_eq!(a.subject, b.subject);
    assert_eq!(a.subject, c.subject);
    assert_eq!(a.content, b.content, "redelivery must be byte-identical");
}

#[test]
fn incidents_and_alerts_promote() {
    let s = ev(
        "sentry/api",
        "issue.resolved",
        r#"{"action": "resolved", "project": "api", "title": "NullPointer in /checkout", "level": "error"}"#,
    );
    let p = promote(&s).expect("sentry should promote");
    assert_eq!(p.subject, "sentry/api#nullpointer-in-checkout");
    assert!(p.content.contains("NullPointer in /checkout"));

    let pd = ev(
        "pagerduty/checkout",
        "incident.resolved",
        r#"{"service": "checkout", "title": "Elevated 5xx"}"#,
    );
    let p = promote(&pd).expect("pagerduty should promote");
    assert_eq!(p.subject, "pagerduty/checkout#elevated-5xx");
    assert_eq!(
        p.content,
        "PagerDuty incident on checkout — \"Elevated 5xx\" — incident.resolved."
    );
}

#[test]
fn unpromotable_events_yield_nothing() {
    // A push has no durable outcome to remember, and an unknown vendor has no known shape.
    let push = ev("github/acme/api", "push", r#"{"repository": "acme/api", "raw": {"commits": [{"id": "abc"}]}}"#);
    assert!(promote(&push).is_none());
    let other = ev("slack", "message", r#"{"raw": {"event": {"text": "hi"}}}"#);
    assert!(promote(&other).is_none());
    let nameless = ev("sentry/api", "issue.resolved", r#"{"title": ""}"#);
    assert!(promote(&nameless).is_none());
    let numberless = ev("github/a/b", "issue.closed", r#"{"raw": {"issue": {"number": -1}}}"#);
    assert!(promote(&numberless).is_none());
}

#[test]
fn rules_match_by_vendor_and_event_type() {
    let pr = ev(
        "github/acme/api",
        "pull_request.closed",
        r#"{"repository": "acme/api", "raw": {"pull_request": {"number": 1, "title": "t"}}}"#,
    );
    let e = &pr;
    // Source is `github/acme/api`: matching must key on the vendor, not the whole string.
    assert!(ecphoria_core::ingest::promote::matches(e, &["github:pull_request.closed".into()]));
    assert!(ecphoria_core::ingest::promote::matches(e, &["github:pull_request.*".into()]));
    assert!(ecphoria_core::ingest::promote::matches(e, &["github:*".into()]));
    assert!(ecphoria_core::ingest::promote::matches(e, &["*:pull_request.closed".into()]));
    assert!(!ecphoria_core::ingest::promote::matches(e, &["github:issue.closed".into()]));
    assert!(!ecphoria_core::ingest::promote::matches(e, &["sentry:*".into()]));
    assert!(!ecphoria_core::ingest::promote::matches(e, &["malformed-no-colon".into()]));
    assert!(!ecphoria_core::ingest::promote::matches(e, &[]));
    // The shipped defaults must actually fire on a closed PR.
    assert!(ecphoria_core::ingest::promote::matches(e, &default_rules()));
    // The vendor is compared without regard to case, the event type is not.
    assert!(ecphoria_core::ingest::promote::matches(e, &["GitHub:pull_request.closed".into()]));
    assert!(!ecphoria_core::ingest::promote::matches(e, &["github:Pull_Request.closed".into()]));
}

#[test]
fn defaults_where_a_payload_says_nothing() {
    let pr = ev("github", "pull_request.closed", r#"{"raw": {"pull_request": {"number": 1}}}"#);
    let p = promote(&pr).unwrap();
    assert_eq!(p.subject, "unknown#pr-1");
    assert_eq!(
        p.content,
        "Pull request #1 in unknown — \"(no title)\" — closed without merging by someone."
    );
    let s = ev("sentry", "x", r#"{"title": "T"}"#);
    assert_eq!(promote(&s).unwrap().content, "Sentry error in unknown — \"T\" — resolved.");
}

#[test]
fn slugs_are_lower_case_and_bounded() {
    assert_eq!(slug("  Hello,  World! "), "hello-world");
    assert_eq!(slug("ÀÉ İ"), "àé-i\u{307}");
    assert_eq!(slug(&"a".repeat(200)), "a".repeat(120));
    assert_eq!(slug("---"), "");
}

#[test]
fn the_vendor_is_the_first_segment() {
    assert_eq!(vendor("github/acme/api"), "github");
    assert_eq!(vendor("slack"), "slack");
}

#[test]
fn slugs_of_ascii_text_are_keys() {
    assert_eq!(slug("Disk FULL -- on db-01!"), "disk-full-on-db-01");
    assert_eq!(slug("disk full -- ON DB-01!"), "disk-full-on-db-01");
    assert_eq!(slug(&slug("Disk FULL -- on db-01!")), "disk-full-on-db-01");
    // Only the first characters count.
    assert_eq!(slug(&format!("{}x", "!".repeat(120))), "");
    assert_eq!(slug(&format!("{}x", "!".repeat(119))), "x");
    assert_eq!(slug(&format!("{} y", "a".repeat(119))), "a".repeat(119));
}

#[test]
fn pull_request_states_share_a_subject() {
    let merged = r#"{"repository": "acme/api", "raw": {"pull_request": {"number": 42, "merged": true}}}"#;
    let closed = r#"{"repository": "acme/api", "raw": {"pull_request": {"number": 42, "title": "T"}}}"#;
    let a = promote(&ev("github/acme/api", "pull_request.closed", merged)).unwrap();
    let b = promote(&ev("github/acme/api", "pull_request.reopened", closed)).unwrap();
    assert_eq!(a.subject, b.subject);
    assert_ne!(a.content, b.content);
}
