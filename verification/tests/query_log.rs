//! The log of searches.

use ecphoria_core::json::{parse, Json};
use ecphoria_core::memory::event::Event;
use ecphoria_core::memory::query_log::{
    record as record_event, tells_drop, writer_step, QueryRecord, WriterStep, BATCH, CAPACITY,
    FLUSH_MS, QUERY_LOG_SOURCE,
};

fn j(text: &str) -> Json {
    parse(text).expect("a JSON text")
}

fn record(query: &str, results: usize) -> QueryRecord {
    QueryRecord {
        tenant_id: "acme".into(),
        user_id: Some("alice".into()),
        agent_id: None,
        project: Some("platform".into()),
        query: Some(query.into()),
        k: 5,
        results,
        matched: results > 0,
        top_subject: if results > 0 {
            Some("platform/docs/runbook.md#failover".to_string())
        } else {
            None
        },
        top_similarity: if results > 0 { Some(j("0.712")) } else { None },
        duration_ms: j("14.25"),
    }
}

fn field<'a>(e: &'a Event, key: &str) -> Option<&'a Json> {
    e.payload.get(key)
}

#[test]
fn records_land_as_queryable_events() {
    let e = record_event(record("why did we choose USearch", 3), true, 7, 1_000);
    assert_eq!(e.source, QUERY_LOG_SOURCE);
    assert_eq!(e.event_type, "memory.search");
    assert_eq!(e.timestamp, 1_000);
    assert_eq!(
        field(&e, "query").unwrap().as_str(),
        Some("why did we choose USearch")
    );
    assert_eq!(field(&e, "results").unwrap().as_u64(), Some(3));
    assert_eq!(field(&e, "k").unwrap().as_u64(), Some(5));
    assert_eq!(field(&e, "empty").unwrap().as_bool(), Some(false));
    assert_eq!(field(&e, "project").unwrap().as_str(), Some("platform"));
    assert_eq!(field(&e, "user_id").unwrap().as_str(), Some("alice"));
    assert!(field(&e, "agent_id").is_none());
    assert_eq!(
        field(&e, "_tenant_id").unwrap().as_str(),
        Some("acme"),
        "must be tenant-scoped like any event"
    );
    assert_eq!(field(&e, "top_similarity").unwrap().to_text(), "0.712");
    assert_eq!(field(&e, "duration_ms").unwrap().to_text(), "14.25");
}

#[test]
fn empty_results_are_flagged() {
    let e = record_event(record("our S3 key rotation policy", 0), true, 7, 0);
    assert_eq!(field(&e, "empty").unwrap().as_bool(), Some(true));
    assert_eq!(field(&e, "results").unwrap().as_u64(), Some(0));
    assert!(
        field(&e, "top_subject").is_none(),
        "nothing matched — there is no top subject to report"
    );
}

#[test]
fn query_text_is_omitted_when_disabled() {
    let e = record_event(record("something sensitive", 2), false, 7, 0);
    assert!(
        field(&e, "query").is_none(),
        "query text was recorded although it is not wanted"
    );
    assert_eq!(
        field(&e, "results").unwrap().as_u64(),
        Some(2),
        "the shape is still recorded"
    );
}

#[test]
fn a_search_that_falls_back_counts_as_empty() {
    let mut r = record("our S3 key rotation policy", 1);
    r.matched = false;
    let e = record_event(r, true, 7, 0);
    assert_eq!(field(&e, "matched").unwrap().as_bool(), Some(false));
    assert_eq!(field(&e, "empty").unwrap().as_bool(), Some(true));
    assert_eq!(field(&e, "results").unwrap().as_u64(), Some(1));
}

#[test]
fn drops_are_told_once_in_a_thousand() {
    assert!(tells_drop(1));
    assert!(!tells_drop(2));
    assert!(!tells_drop(1_000));
    assert!(tells_drop(1_001));
    assert_eq!(CAPACITY, 4096);
    assert_eq!(FLUSH_MS, 500);
}

#[test]
fn the_writer_fills_a_batch_or_a_window() {
    assert_eq!(writer_step(0, false, false), WriterStep::Wait);
    assert_eq!(writer_step(1, false, false), WriterStep::Fill);
    assert_eq!(writer_step(BATCH, false, false), WriterStep::Write);
    assert_eq!(writer_step(3, true, false), WriterStep::Write);
    assert_eq!(writer_step(0, false, true), WriterStep::Stop);
    // A closed queue is written out as the writer stops.
    assert_eq!(writer_step(3, false, true), WriterStep::Stop);
}
