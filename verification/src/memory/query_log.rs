//! What was asked, and whether the corpus answered: each search as an episodic event.
//!
//! Records go through a bounded queue that one writer drains in batches. A record that finds the
//! queue full is dropped and counted: observing a search must not slow it down.

use vstd::prelude::*;

use crate::json::{integer_of, Json, JsonView};
use crate::memory::event::{Event, EventView};
use crate::text;

verus! {

broadcast use vstd::string::group_string_axioms;

/// The source of every record, so that retention can be set for it.
pub const QUERY_LOG_SOURCE: &'static str = "ecphoria/query-log";

/// How many records the writer writes in one batch.
pub const BATCH: usize = 128;

/// How long the writer waits to fill a batch, in milliseconds.
pub const FLUSH_MS: u64 = 500;

/// How many records the queue holds.
pub const CAPACITY: usize = 4096;

/// One search, as it happened.
#[derive(Debug)]
pub struct QueryRecord {
    pub tenant_id: String,
    pub user_id: Option<String>,
    pub agent_id: Option<String>,
    pub project: Option<String>,
    /// The question.
    pub query: Option<String>,
    pub k: usize,
    pub results: usize,
    /// Did any way of retrieval match? A search that matched nothing still returns the most
    /// important memories, so that this is not the same as having results.
    pub matched: bool,
    /// The subject of the best hit.
    pub top_subject: Option<String>,
    /// The similarity of the best hit, a number rounded to thousandths.
    pub top_similarity: Option<Json>,
    /// The duration in milliseconds, a number rounded to hundredths.
    pub duration_ms: Json,
}

pub open spec fn added(
    fields: Seq<(Seq<char>, JsonView)>,
    key: Seq<char>,
    value: Option<JsonView>,
) -> Seq<(Seq<char>, JsonView)> {
    match value {
        Some(v) => fields.push((key, v)),
        None => fields,
    }
}

pub open spec fn opt_str_json(o: Option<String>) -> Option<JsonView> {
    match o {
        Some(s) => Some(JsonView::Str(s@)),
        None => None,
    }
}

/// The payload of a record. The text of the question is left out unless it is asked for.
pub open spec fn record_fields(r: QueryRecord, include_query: bool) -> Seq<(Seq<char>, JsonView)> {
    let base = seq![
        ("k"@, integer_of(r.k as u64)),
        ("results"@, integer_of(r.results as u64)),
        ("matched"@, JsonView::Bool(r.matched)),
        ("empty"@, JsonView::Bool(!r.matched || r.results == 0)),
        ("duration_ms"@, r.duration_ms@),
    ];
    let query = if include_query {
        opt_str_json(r.query)
    } else {
        None
    };
    let f1 = added(base, "query"@, query);
    let f2 = added(f1, "user_id"@, opt_str_json(r.user_id));
    let f3 = added(f2, "agent_id"@, opt_str_json(r.agent_id));
    let f4 = added(f3, "project"@, opt_str_json(r.project));
    let f5 = added(f4, "top_subject"@, opt_str_json(r.top_subject));
    let f6 = added(f5, "top_similarity"@, crate::runtime::types::opt_json(r.top_similarity));
    f6.push(("_tenant_id"@, JsonView::Str(r.tenant_id@)))
}

fn add_field(fields: &mut Vec<(String, Json)>, key: &str, value: Option<Json>)
    ensures
        crate::json::field_views(final(fields)@) == added(
            crate::json::field_views(old(fields)@),
            key@,
            crate::runtime::types::opt_json(value),
        ),
{
    let ghost before = fields@;
    if let Some(v) = value {
        fields.push((key.to_owned(), v));
        proof {
            assert(crate::json::field_views(fields@) =~= crate::json::field_views(before).push(
                (key@, v@),
            ));
        }
    }
}

fn text_value(o: Option<String>) -> (r: Option<Json>)
    ensures
        crate::runtime::types::opt_json(r) == opt_str_json(o),
{
    match o {
        Some(s) => Some(Json::Str(s)),
        None => None,
    }
}

/// The event that records a search.
pub fn record(r: QueryRecord, include_query: bool, id: u128, now: i128) -> (e: Event)
    ensures
        e@ == (EventView {
            id,
            source: "ecphoria/query-log"@,
            event_type: "memory.search"@,
            payload: JsonView::Object(record_fields(r, include_query)),
            timestamp: now as int,
            parent_id: None,
            trace_id: None,
            tags: seq![],
            idempotency_key: None,
        }),
{
    let ghost rec = r;
    let mut fields: Vec<(String, Json)> = Vec::new();
    fields.push(("k".to_owned(), crate::json::integer(r.k as u64)));
    fields.push(("results".to_owned(), crate::json::integer(r.results as u64)));
    fields.push(("matched".to_owned(), Json::Bool(r.matched)));
    fields.push(("empty".to_owned(), Json::Bool(!r.matched || r.results == 0)));
    fields.push(("duration_ms".to_owned(), r.duration_ms));
    proof {
        assert(crate::json::field_views(fields@) =~= seq![
            ("k"@, integer_of(rec.k as u64)),
            ("results"@, integer_of(rec.results as u64)),
            ("matched"@, JsonView::Bool(rec.matched)),
            ("empty"@, JsonView::Bool(!rec.matched || rec.results == 0)),
            ("duration_ms"@, rec.duration_ms@),
        ]);
    }
    if include_query {
        add_field(&mut fields, "query", text_value(r.query));
    }
    add_field(&mut fields, "user_id", text_value(r.user_id));
    add_field(&mut fields, "agent_id", text_value(r.agent_id));
    add_field(&mut fields, "project", text_value(r.project));
    add_field(&mut fields, "top_subject", text_value(r.top_subject));
    add_field(&mut fields, "top_similarity", r.top_similarity);
    add_field(&mut fields, "_tenant_id", Some(Json::Str(r.tenant_id)));
    let tags: Vec<String> = Vec::new();
    proof {
        assert(text::views(tags@) =~= seq![]);
    }
    Event {
        id,
        source: "ecphoria/query-log".to_owned(),
        event_type: "memory.search".to_owned(),
        payload: crate::json::object(fields),
        timestamp: now,
        parent_id: None,
        trace_id: None,
        tags,
        idempotency_key: None,
    }
}

/// Is the `n`-th dropped record told? One in a thousand, the first of each thousand.
pub fn tells_drop(n: u64) -> (r: bool)
    ensures
        r == (n % 1000 == 1),
{
    n % 1000 == 1
}

/// What the writer of the queue does with what it holds.
#[derive(Debug, Clone, Copy, PartialEq, Eq, Structural)]
pub enum WriterStep {
    /// Wait for the first record of a batch.
    Wait,
    /// Wait for one more record, until the window ends.
    Fill,
    /// Write what there is.
    Write,
    /// Write what there is, and stop.
    Stop,
}

/// What the writer does next, with `held` records, once the window of its batch has ended or the
/// queue is closed.
pub fn writer_step(held: usize, window_over: bool, closed: bool) -> (r: WriterStep)
    ensures
        r == if closed {
            WriterStep::Stop
        } else if held == 0 {
            WriterStep::Wait
        } else if held < 128 && !window_over {
            WriterStep::Fill
        } else {
            WriterStep::Write
        },
{
    if closed {
        WriterStep::Stop
    } else if held == 0 {
        WriterStep::Wait
    } else if held < BATCH && !window_over {
        WriterStep::Fill
    } else {
        WriterStep::Write
    }
}

proof fn lemma_added(
    fields: Seq<(Seq<char>, JsonView)>,
    key: Seq<char>,
    value: Option<JsonView>,
    other: Seq<char>,
)
    requires
        key != other,
    ensures
        crate::json::lookup(added(fields, key, value), other) == crate::json::lookup(fields, other),
    decreases fields.len(),
{
    if value is Some {
        let f = added(fields, key, value);
        if fields.len() == 0 {
            assert(f.drop_first() =~= fields);
        } else {
            lemma_added(fields.drop_first(), key, value, other);
            assert(f.drop_first() =~= added(fields.drop_first(), key, value));
        }
    }
}

/// Without consent the text of a question is nowhere in its record.
pub proof fn law_query_text_is_left_out(r: QueryRecord)
    ensures
        crate::json::lookup(record_fields(r, false), "query"@) is None,
{
    reveal_strlit("k");
    reveal_strlit("results");
    reveal_strlit("matched");
    reveal_strlit("empty");
    reveal_strlit("duration_ms");
    reveal_strlit("query");
    reveal_strlit("user_id");
    reveal_strlit("agent_id");
    reveal_strlit("project");
    reveal_strlit("top_subject");
    reveal_strlit("top_similarity");
    reveal_strlit("_tenant_id");
    assert("query"@.len() == 5 && "query"@[0] == 'q');
    assert("k"@.len() == 1 && "results"@.len() == 7 && "matched"@.len() == 7);
    assert("empty"@[0] == 'e' && "duration_ms"@.len() == 11);
    assert("user_id"@.len() == 7 && "agent_id"@.len() == 8 && "project"@.len() == 7);
    assert("top_subject"@.len() == 11 && "top_similarity"@.len() == 14);
    assert("_tenant_id"@.len() == 10);
    let base = seq![
        ("k"@, integer_of(r.k as u64)),
        ("results"@, integer_of(r.results as u64)),
        ("matched"@, JsonView::Bool(r.matched)),
        ("empty"@, JsonView::Bool(!r.matched || r.results == 0)),
        ("duration_ms"@, r.duration_ms@),
    ];
    let q = "query"@;
    crate::json::lemma_lookup(base, q);
    assert forall|i: int| 0 <= i < base.len() implies (#[trigger] base[i]).0 != q by {
        assert(base[i].0.len() != 5 || base[i].0[0] != 'q');
    }
    assert(crate::json::lookup(base, q) is None);
    let f2 = added(base, "user_id"@, opt_str_json(r.user_id));
    lemma_added(base, "user_id"@, opt_str_json(r.user_id), q);
    let f3 = added(f2, "agent_id"@, opt_str_json(r.agent_id));
    lemma_added(f2, "agent_id"@, opt_str_json(r.agent_id), q);
    let f4 = added(f3, "project"@, opt_str_json(r.project));
    lemma_added(f3, "project"@, opt_str_json(r.project), q);
    let f5 = added(f4, "top_subject"@, opt_str_json(r.top_subject));
    lemma_added(f4, "top_subject"@, opt_str_json(r.top_subject), q);
    let sim = crate::runtime::types::opt_json(r.top_similarity);
    let f6 = added(f5, "top_similarity"@, sim);
    lemma_added(f5, "top_similarity"@, sim, q);
    lemma_added(f6, "_tenant_id"@, Some(JsonView::Str(r.tenant_id@)), q);
}

} // verus!
