//! The records that a run leaves: its opening row, its steps, approvals, triggers and the catalogue
//! of tool servers.

use vstd::prelude::*;

use crate::error::{Error, ErrorView};
use crate::ids::uuid_notation;
use crate::json::{with_field, Json, JsonView};
use crate::memory::event::{Event, EventView};
use crate::runtime::types::{
    no_patch, status_name, tenant_of, tenant_or_default, PatchView, Run, RunPatch, RunStatus,
    RunView, WorkflowNode,
};
use crate::text;

verus! {

broadcast use vstd::string::group_string_axioms;

// ── Runs ─────────────────────────────────────────────────────────────────────────────

/// A run as it is created: pending, with nothing done yet.
pub open spec fn created(
    id: u128,
    tenant: Seq<char>,
    agent_id: Option<Seq<char>>,
    parent_run_id: Option<u128>,
    input: JsonView,
    now: i128,
) -> RunView {
    RunView {
        id,
        tenant_id: tenant_or_default(tenant),
        agent_id,
        parent_run_id,
        status: RunStatus::Pending,
        input,
        result: JsonView::Null,
        error: None,
        cursor: JsonView::Null,
        created_at: now,
        updated_at: now,
        started_at: None,
        ended_at: None,
    }
}

/// The row of a new run.
pub fn run_create(
    id: u128,
    tenant: &str,
    agent_id: Option<String>,
    parent_run_id: Option<u128>,
    input: Json,
    now: i128,
) -> (r: Run)
    ensures
        r@ == created(id, tenant@, text::opt_view(agent_id), parent_run_id, input@, now),
{
    Run {
        id,
        tenant_id: tenant_of(tenant),
        agent_id,
        parent_run_id,
        status: RunStatus::Pending,
        input,
        result: Json::Null,
        error: None,
        cursor: Json::Null,
        created_at: now,
        updated_at: now,
        started_at: None,
        ended_at: None,
    }
}

/// The patch that moves a run to `status`, with its start and its end where they are known.
pub fn status_patch(
    status: RunStatus,
    started_at: Option<i128>,
    ended_at: Option<i128>,
) -> (r: RunPatch)
    ensures
        r@ == (PatchView { status: Some(status), started_at, ended_at, ..no_patch() }),
{
    RunPatch { status: Some(status), result: None, error: None, cursor: None, started_at, ended_at }
}

/// The patch of a run whose loop met an error: it has failed, so that nobody takes it up again.
pub fn failure_patch(error: &str, now: i128) -> (r: RunPatch)
    ensures
        r@ == (PatchView {
            status: Some(RunStatus::Failed),
            error: Some(error@),
            ended_at: Some(now),
            ..no_patch()
        }),
{
    RunPatch {
        status: Some(RunStatus::Failed),
        result: None,
        error: Some(error.to_owned()),
        cursor: None,
        started_at: None,
        ended_at: Some(now),
    }
}

/// The payload of a step: an object, with the run and the tenant that it belongs to.
pub open spec fn step_payload(run: u128, tenant: Seq<char>, payload: JsonView) -> JsonView {
    let fields = match payload {
        JsonView::Object(fields) => fields,
        _ => seq![("value"@, payload)],
    };
    JsonView::Object(
        with_field(
            with_field(fields, "_session_id"@, JsonView::Str(uuid_notation(run))),
            "_tenant_id"@,
            JsonView::Str(tenant_or_default(tenant)),
        ),
    )
}

/// The event that journals one step of a run.
pub fn run_log_step(
    id: u128,
    run_id: u128,
    tenant: &str,
    event_type: &str,
    payload: Json,
    now: i128,
) -> (r: Event)
    ensures
        r@ == (EventView {
            id,
            source: "agent"@,
            event_type: event_type@,
            payload: step_payload(run_id, tenant@, payload@),
            timestamp: now as int,
            parent_id: None,
            trace_id: Some(uuid_notation(run_id)),
            tags: seq![],
            idempotency_key: None,
        }),
{
    let run_text = crate::ids::uuid_text(run_id);
    let fields = match payload {
        Json::Object(fields) => {
            proof {
                assert(payload@->Object_0 =~= crate::json::field_views(fields@));
            }
            fields
        },
        _ => {
            let mut fields: Vec<(String, Json)> = Vec::new();
            fields.push(("value".to_owned(), payload));
            proof {
                assert(crate::json::field_views(fields@) =~= seq![("value"@, payload@)]);
            }
            fields
        },
    };
    let mut fields = fields;
    crate::json::set_field(&mut fields, "_session_id", crate::json::string(run_text.as_str()));
    crate::json::set_field(&mut fields, "_tenant_id", Json::Str(tenant_of(tenant)));
    let tags: Vec<String> = Vec::new();
    proof {
        assert(text::views(tags@) =~= seq![]);
    }
    Event {
        id,
        source: "agent".to_owned(),
        event_type: event_type.to_owned(),
        payload: crate::json::object(fields),
        timestamp: now,
        parent_id: None,
        trace_id: Some(run_text),
        tags,
        idempotency_key: None,
    }
}

/// Every step is found under its run and its tenant, whatever its payload says.
pub proof fn law_steps_carry_their_run(run: u128, tenant: Seq<char>, payload: JsonView)
    ensures
        step_payload(run, tenant, payload).field("_session_id"@) == Some(
            JsonView::Str(uuid_notation(run)),
        ),
        step_payload(run, tenant, payload).field("_tenant_id"@) == Some(
            JsonView::Str(tenant_or_default(tenant)),
        ),
{
    reveal_strlit("_session_id");
    reveal_strlit("_tenant_id");
    assert("_session_id"@.len() != "_tenant_id"@.len());
    let fields = match payload {
        JsonView::Object(fields) => fields,
        _ => seq![("value"@, payload)],
    };
    let one = with_field(fields, "_session_id"@, JsonView::Str(uuid_notation(run)));
    crate::json::lemma_with_field(
        fields,
        "_session_id"@,
        JsonView::Str(uuid_notation(run)),
        "_session_id"@,
    );
    crate::json::lemma_with_field(
        one,
        "_tenant_id"@,
        JsonView::Str(tenant_or_default(tenant)),
        "_session_id"@,
    );
    crate::json::lemma_with_field(
        one,
        "_tenant_id"@,
        JsonView::Str(tenant_or_default(tenant)),
        "_tenant_id"@,
    );
}

// ── Approvals ────────────────────────────────────────────────────────────────────────

/// Where the approval of a run is kept.
pub fn approval_agent(run_id: u128) -> (r: String)
    ensures
        r@ == "__approval:"@ + uuid_notation(run_id),
{
    text::cat("__approval:", crate::ids::uuid_text(run_id).as_str())
}

/// A request for approval.
pub fn run_request_approval(prompt: &str) -> (r: (Json, RunPatch, Json))
    ensures
        r.0@ == JsonView::Object(
            seq![("state"@, JsonView::Str("pending"@)), ("prompt"@, JsonView::Str(prompt@))],
        ),
        r.1@ == (PatchView { status: Some(RunStatus::WaitingApproval), ..no_patch() }),
        r.2@ == JsonView::Object(seq![("prompt"@, JsonView::Str(prompt@))]),
{
    let record = crate::json::object2(
        "state",
        crate::json::string("pending"),
        "prompt",
        crate::json::string(prompt),
    );
    let step = crate::json::object1("prompt", crate::json::string(prompt));
    (record, status_patch(RunStatus::WaitingApproval, None, None), step)
}

/// Is the approval in a given state?
pub open spec fn in_state(status: Option<JsonView>, state: Seq<char>) -> bool {
    crate::json::opt_field(status, "state"@) == Some(JsonView::Str(state))
}

fn has_state(status: Option<&Json>, state: &str) -> (r: bool)
    ensures
        r == in_state(crate::json::opt_tree(status), state@),
{
    match status {
        Some(j) => match j.get("state") {
            Some(Json::Str(s)) => text::same(s.as_str(), state),
            _ => false,
        },
        None => false,
    }
}

/// How an approval is resolved: what is recorded, how the run goes on, and what is journaled.
#[derive(Debug)]
pub struct Verdict {
    pub record: Json,
    pub patch: RunPatch,
    pub step: Json,
}

pub open spec fn verdict_record(approved: bool) -> JsonView {
    JsonView::Object(
        seq![
            (
                "state"@,
                JsonView::Str(
                    if approved {
                        "approved"@
                    } else {
                        "rejected"@
                    },
                ),
            ),
        ],
    )
}

pub open spec fn verdict_patch(approved: bool, now: i128) -> PatchView {
    if approved {
        PatchView { status: Some(RunStatus::Running), ..no_patch() }
    } else {
        PatchView { status: Some(RunStatus::Cancelled), ended_at: Some(now), ..no_patch() }
    }
}

/// Resolves an approval. Only a pending one can be resolved.
pub fn run_resolve_approval(status: Option<&Json>, approved: bool, now: i128) -> (r: Result<
    Verdict,
    Error,
>)
    ensures
        match r {
            Ok(v) => {
                &&& in_state(crate::json::opt_tree(status), "pending"@)
                &&& v.record@ == verdict_record(approved)
                &&& v.patch@ == verdict_patch(approved, now)
                &&& v.step@ == JsonView::Object(seq![("approved"@, JsonView::Bool(approved))])
            },
            Err(e) => {
                &&& !in_state(crate::json::opt_tree(status), "pending"@)
                &&& e@ == ErrorView::State("no pending approval to resolve for this run"@)
            },
        },
{
    if !has_state(status, "pending") {
        return Err(Error::State("no pending approval to resolve for this run".to_owned()));
    }
    let state = if approved {
        "approved"
    } else {
        "rejected"
    };
    let patch = if approved {
        status_patch(RunStatus::Running, None, None)
    } else {
        status_patch(RunStatus::Cancelled, None, Some(now))
    };
    Ok(
        Verdict {
            record: crate::json::object1("state", crate::json::string(state)),
            patch,
            step: crate::json::object1("approved", Json::Bool(approved)),
        },
    )
}

/// May a run go on after an approval?
pub fn run_resume(status: Option<&Json>) -> (r: Result<(), Error>)
    ensures
        match r {
            Ok(_) => in_state(crate::json::opt_tree(status), "approved"@),
            Err(e) => {
                &&& !in_state(crate::json::opt_tree(status), "approved"@)
                &&& e@ == ErrorView::State("run is not approved for resume"@)
            },
        },
{
    if has_state(status, "approved") {
        Ok(())
    } else {
        Err(Error::State("run is not approved for resume".to_owned()))
    }
}

/// An approval is resolved once: what a verdict records cannot be resolved again, and only an
/// approval lets the run go on.
pub proof fn law_approvals_are_resolved_once(approved: bool)
    ensures
        !in_state(Some(verdict_record(approved)), "pending"@),
        in_state(Some(verdict_record(approved)), "approved"@) == approved,
{
    reveal_strlit("pending");
    reveal_strlit("approved");
    reveal_strlit("rejected");
    assert("pending"@.len() == 7);
    assert("approved"@.len() == 8 && "approved"@[0] == 'a');
    assert("rejected"@.len() == 8 && "rejected"@[0] == 'r');
}

// ── Triggers ─────────────────────────────────────────────────────────────────────────

/// Where the triggers of a tenant are kept: the tenant is part of the key, so that nobody can list
/// or fire the triggers of another.
pub open spec fn trigger_key(tenant: Seq<char>) -> Seq<char> {
    "__trigger:"@ + tenant_or_default(tenant)
}

pub fn trigger_agent(tenant: &str) -> (r: String)
    ensures
        r@ == trigger_key(tenant@),
{
    text::cat("__trigger:", tenant_of(tenant).as_str())
}

/// Two tenants keep their triggers apart.
pub proof fn law_triggers_are_kept_apart(a: Seq<char>, b: Seq<char>)
    requires
        tenant_or_default(a) != tenant_or_default(b),
    ensures
        trigger_key(a) != trigger_key(b),
{
    let n = "__trigger:"@.len() as int;
    assert(trigger_key(a).skip(n) =~= tenant_or_default(a));
    assert(trigger_key(b).skip(n) =~= tenant_or_default(b));
}

/// The record of a trigger.
pub fn trigger_register(source: &str, event_type: &str, agent_id: &str) -> (r: Json)
    ensures
        r@ == JsonView::Object(
            seq![
                ("source"@, JsonView::Str(source@)),
                ("event_type"@, JsonView::Str(event_type@)),
                ("agent_id"@, JsonView::Str(agent_id@)),
            ],
        ),
{
    crate::json::object3(
        "source",
        crate::json::string(source),
        "event_type",
        crate::json::string(event_type),
        "agent_id",
        crate::json::string(agent_id),
    )
}

/// A trigger as it is listed: an object gets its name.
pub open spec fn listed_trigger(value: JsonView, name: Seq<char>) -> JsonView {
    match value {
        JsonView::Object(fields) => JsonView::Object(
            with_field(fields, "name"@, JsonView::Str(name)),
        ),
        _ => value,
    }
}

pub fn trigger_list_entry(value: Json, name: &str) -> (r: Json)
    ensures
        r@ == listed_trigger(value@, name@),
{
    match value {
        Json::Object(fields) => {
            proof {
                assert(value@->Object_0 =~= crate::json::field_views(fields@));
            }
            let mut fields = fields;
            crate::json::set_field(&mut fields, "name", crate::json::string(name));
            crate::json::object(fields)
        },
        _ => value,
    }
}

/// Does a trigger's field cover a value? A field that is missing covers all, and so does `*`.
pub open spec fn wants(trigger: JsonView, field: Seq<char>, value: Seq<char>) -> bool {
    match trigger.field(field) {
        Some(JsonView::Str(want)) => want == "*"@ || want == value,
        _ => true,
    }
}

/// The agent that a trigger starts on an event.
pub open spec fn fired(
    trigger: JsonView,
    source: Seq<char>,
    event_type: Seq<char>,
) -> Option<Seq<char>> {
    if wants(trigger, "source"@, source) && wants(trigger, "event_type"@, event_type) {
        match trigger.field("agent_id"@) {
            Some(JsonView::Str(agent)) => Some(agent),
            _ => Some("trigger"@),
        }
    } else {
        None
    }
}

fn covers(trigger: &Json, field: &str, value: &str) -> (r: bool)
    ensures
        r == wants(trigger@, field@, value@),
{
    match trigger.get(field) {
        Some(Json::Str(want)) => text::same(want.as_str(), "*") || text::same(want.as_str(), value),
        _ => true,
    }
}

/// The agent that a trigger starts on an event, where it covers it.
pub fn fire_trigger(trigger: &Json, source: &str, event_type: &str) -> (r: Option<String>)
    ensures
        text::opt_view(r) == fired(trigger@, source@, event_type@),
{
    if covers(trigger, "source", source) && covers(trigger, "event_type", event_type) {
        match trigger.get("agent_id") {
            Some(Json::Str(agent)) => Some(agent.clone()),
            _ => Some("trigger".to_owned()),
        }
    } else {
        None
    }
}

// ── Tool servers ─────────────────────────────────────────────────────────────────────

/// The address of a tool server in its record.
pub open spec fn server_url(record: Option<JsonView>) -> Option<Seq<char>> {
    match crate::json::opt_field(record, "url"@) {
        Some(JsonView::Str(url)) => Some(url),
        _ => None,
    }
}

/// The record of a tool server.
pub fn tool_server_register(url: &str) -> (r: Json)
    ensures
        r@ == JsonView::Object(seq![("url"@, JsonView::Str(url@))]),
        server_url(Some(r@)) == Some(url@),
{
    let r = crate::json::object1("url", crate::json::string(url));
    proof {
        assert(r@->Object_0[0] == ("url"@, JsonView::Str(url@)));
    }
    r
}

pub open spec fn servers_in(entries: Seq<(Seq<char>, Option<JsonView>)>) -> Seq<
    (Seq<char>, Seq<char>),
>
    decreases entries.len(),
{
    if entries.len() == 0 {
        seq![]
    } else {
        let before = servers_in(entries.drop_last());
        match server_url(entries.last().1) {
            Some(url) => before.push((entries.last().0, url)),
            None => before,
        }
    }
}

pub open spec fn entry_views(v: Seq<(String, Option<Json>)>) -> Seq<
    (Seq<char>, Option<JsonView>),
> {
    v.map_values(|e: (String, Option<Json>)| (e.0@, crate::runtime::types::opt_json(e.1)))
}

pub open spec fn pair_views(v: Seq<(String, String)>) -> Seq<(Seq<char>, Seq<char>)> {
    v.map_values(|e: (String, String)| (e.0@, e.1@))
}

/// The servers with an address, of all that are recorded.
pub fn tool_server_list(entries: &Vec<(String, Option<Json>)>) -> (r: Vec<(String, String)>)
    ensures
        pair_views(r@) == servers_in(entry_views(entries@)),
{
    let ghost all = entry_views(entries@);
    let mut out: Vec<(String, String)> = Vec::new();
    let mut i: usize = 0;
    proof {
        assert(all.take(0) =~= seq![]);
        assert(pair_views(out@) =~= seq![]);
    }
    while i < entries.len()
        invariant
            i <= entries.len(),
            all == entry_views(entries@),
            pair_views(out@) == servers_in(all.take(i as int)),
        decreases entries.len() - i,
    {
        proof {
            assert(all.take(i + 1).drop_last() =~= all.take(i as int));
            assert(all.take(i + 1).last() == all[i as int]);
        }
        if let Some(record) = &entries[i].1 {
            if let Some(Json::Str(url)) = record.get("url") {
                let ghost before = out@;
                out.push((entries[i].0.clone(), url.clone()));
                proof {
                    assert(pair_views(out@) =~= pair_views(before).push((all[i as int].0, url@)));
                }
            }
        }
        i += 1;
    }
    proof {
        assert(all.take(all.len() as int) =~= all);
    }
    out
}

// ── Workflows ────────────────────────────────────────────────────────────────────────

/// The step that journals a node's run, and the entry of it in the workflow's result.
pub fn subagent_records(node: &WorkflowNode, child: u128, status: RunStatus) -> (r: (Json, Json))
    ensures
        r.0@ == JsonView::Object(
            seq![
                ("node"@, JsonView::Str(node.id@)),
                ("child_run"@, JsonView::Str(uuid_notation(child))),
                ("status"@, JsonView::Str(status_name(status))),
            ],
        ),
        r.1@ == JsonView::Object(
            seq![
                ("node"@, JsonView::Str(node.id@)),
                ("run_id"@, JsonView::Str(uuid_notation(child))),
            ],
        ),
{
    let child_text = crate::ids::uuid_text(child);
    let step = crate::json::object3(
        "node",
        crate::json::string(node.id.as_str()),
        "child_run",
        crate::json::string(child_text.as_str()),
        "status",
        crate::json::string(status.as_str()),
    );
    let entry = crate::json::object2(
        "node",
        crate::json::string(node.id.as_str()),
        "run_id",
        Json::Str(child_text),
    );
    (step, entry)
}

/// How a workflow ends: it has failed where a node did not succeed.
pub open spec fn workflow_closing(
    failed: bool,
    children: Seq<JsonView>,
    now: i128,
) -> PatchView {
    let result = Some(JsonView::Object(seq![("children"@, JsonView::Array(children))]));
    if failed {
        PatchView {
            status: Some(RunStatus::Failed),
            result,
            error: Some("a workflow node did not succeed"@),
            ended_at: Some(now),
            ..no_patch()
        }
    } else {
        PatchView {
            status: Some(RunStatus::Succeeded),
            result,
            ended_at: Some(now),
            ..no_patch()
        }
    }
}

pub fn workflow_patch(failed: bool, children: Vec<Json>, now: i128) -> (r: RunPatch)
    ensures
        r@ == workflow_closing(failed, crate::runtime::agent::json_views(children@), now),
{
    let ghost all = crate::runtime::agent::json_views(children@);
    let list = Json::Array(children);
    proof {
        assert(list@->Array_0 =~= all);
    }
    let result = crate::json::object1("children", list);
    if failed {
        RunPatch {
            status: Some(RunStatus::Failed),
            result: Some(result),
            error: Some("a workflow node did not succeed".to_owned()),
            cursor: None,
            started_at: None,
            ended_at: Some(now),
        }
    } else {
        RunPatch {
            status: Some(RunStatus::Succeeded),
            result: Some(result),
            error: None,
            cursor: None,
            started_at: None,
            ended_at: Some(now),
        }
    }
}

} // verus!
