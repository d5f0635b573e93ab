//! Runs, workflows and the agent loop.

use ecphoria_core::error::Error;
use ecphoria_core::json::{parse, Json};
use ecphoria_core::runtime::agent::{read_reply, rebuild_agent_transcript, Move};
use ecphoria_core::runtime::agent_loop::{closing_patch, Action, AgentLoop, LoopEvent};
use ecphoria_core::runtime::ledger::{
    approval_agent, failure_patch, fire_trigger, run_create, run_log_step, run_request_approval,
    run_resolve_approval, run_resume, status_patch, tool_server_list, tool_server_register,
    trigger_agent, trigger_list_entry, trigger_register,
};
use ecphoria_core::runtime::types::{tenant_of, RunStatus, WorkflowNode};
use ecphoria_core::runtime::workflow::topo_order;
use ecphoria_core::runtime::workflow_run::WorkflowRun;

fn j(text: &str) -> Json {
    parse(text).expect("a JSON text")
}

fn step(event_type: &str, payload: &str) -> Json {
    j(&format!(
        "{{\"event_type\":\"{event_type}\",\"payload\":{payload}}}"
    ))
}

fn node(id: &str, deps: &[&str]) -> WorkflowNode {
    WorkflowNode {
        id: id.to_string(),
        agent_id: format!("agent-{id}"),
        question: format!("what about {id}?"),
        deps: deps.iter().map(|d| d.to_string()).collect(),
    }
}

#[test]
fn statuses_round_trip_and_know_their_end() {
    for s in [
        RunStatus::Pending,
        RunStatus::Running,
        RunStatus::WaitingApproval,
        RunStatus::Succeeded,
        RunStatus::Failed,
        RunStatus::Cancelled,
    ] {
        assert_eq!(RunStatus::from_str(s.as_str()), s);
    }
    assert_eq!(RunStatus::from_str("nonsense"), RunStatus::Pending);
    assert!(RunStatus::Failed.is_terminal());
    assert!(!RunStatus::WaitingApproval.is_terminal());
    assert_eq!(tenant_of(""), "default");
    assert_eq!(tenant_of("acme"), "acme");
}

#[test]
fn run_ledger_lifecycle() {
    let mut run = run_create(1, "", Some("a1".into()), None, j(r#"{"q": 1}"#), 10);
    assert_eq!(run.tenant_id, "default");
    assert_eq!(run.status, RunStatus::Pending);
    assert!(run.started_at.is_none());
    status_patch(RunStatus::Running, Some(11), None).apply(&mut run, 11);
    assert_eq!(run.status, RunStatus::Running);
    assert_eq!(run.started_at, Some(11));
    assert_eq!(run.updated_at, 11);
    closing_patch(Some("42"), 12).apply(&mut run, 12);
    assert_eq!(run.status, RunStatus::Succeeded);
    assert_eq!(run.result.get("answer").unwrap().as_str(), Some("42"));
    assert_eq!(run.ended_at, Some(12));
    assert_eq!(run.started_at, Some(11), "what a patch leaves open stays");
}

#[test]
fn erroring_agent_run_is_marked_failed_not_left_running() {
    let mut run = run_create(1, "default", None, None, Json::Null, 10);
    failure_patch("boom", 20).apply(&mut run, 20);
    assert_eq!(run.status, RunStatus::Failed);
    assert!(run.status.is_terminal());
    assert_eq!(run.error.as_deref(), Some("boom"));
    let mut run = run_create(2, "default", None, None, Json::Null, 10);
    closing_patch(None, 20).apply(&mut run, 20);
    assert_eq!(run.status, RunStatus::Failed);
    assert_eq!(
        run.error.as_deref(),
        Some("max turns exceeded without a final answer")
    );
}

#[test]
fn steps_carry_their_run_and_tenant() {
    let id = 0x0011_2233_4455_6677_8899_aabb_ccdd_eeff;
    let e = run_log_step(9, id, "acme", "tool_call", j(r#"{"_tenant_id": "evil", "x": 1}"#), 5);
    assert_eq!(e.source, "agent");
    assert_eq!(e.event_type, "tool_call");
    assert_eq!(
        e.trace_id.as_deref(),
        Some("00112233-4455-6677-8899-aabbccddeeff")
    );
    assert_eq!(e.payload.get("_tenant_id").unwrap().as_str(), Some("acme"));
    assert_eq!(
        e.payload.get("_session_id").unwrap().as_str(),
        Some("00112233-4455-6677-8899-aabbccddeeff")
    );
    assert_eq!(e.payload.get("x").unwrap().as_u64(), Some(1));
    let e = run_log_step(9, id, "", "note", j("3"), 5);
    assert_eq!(e.payload.get("value").unwrap().as_u64(), Some(3));
    assert_eq!(
        e.payload.get("_tenant_id").unwrap().as_str(),
        Some("default")
    );
}

#[test]
fn approval_cannot_be_resolved_twice() {
    let (pending, patch, asked) = run_request_approval("ok to proceed?");
    assert_eq!(patch.status, Some(RunStatus::WaitingApproval));
    assert_eq!(asked.get("prompt").unwrap().as_str(), Some("ok to proceed?"));
    let first = run_resolve_approval(Some(&pending), true, 7).unwrap();
    assert_eq!(first.patch.status, Some(RunStatus::Running));
    let again = run_resolve_approval(Some(&first.record), false, 8);
    assert!(matches!(again, Err(Error::State(_))));
    assert!(run_resolve_approval(None, true, 8).is_err());
}

#[test]
fn hitl_request_then_approve() {
    let (pending, _, _) = run_request_approval("deploy?");
    assert!(run_resume(Some(&pending)).is_err());
    let yes = run_resolve_approval(Some(&pending), true, 7).unwrap();
    assert!(run_resume(Some(&yes.record)).is_ok());
    let no = run_resolve_approval(Some(&pending), false, 7).unwrap();
    assert_eq!(no.patch.status, Some(RunStatus::Cancelled));
    let err = run_resume(Some(&no.record)).unwrap_err();
    assert_eq!(
        err,
        Error::State("run is not approved for resume".to_string())
    );
    assert_eq!(
        approval_agent(1),
        "__approval:00000000-0000-0000-0000-000000000001"
    );
}

#[test]
fn triggers_register_match_and_fire_runs() {
    let t = trigger_register("github", "*", "triage");
    assert_eq!(
        fire_trigger(&t, "github", "issue.opened"),
        Some("triage".to_string())
    );
    assert_eq!(fire_trigger(&t, "jira", "issue.opened"), None);
    let any = j(r#"{"source": "*", "event_type": "deploy"}"#);
    assert_eq!(fire_trigger(&any, "ci", "deploy"), Some("trigger".to_string()));
    assert_eq!(fire_trigger(&any, "ci", "build"), None);
    let listed = trigger_list_entry(t, "on-issue");
    assert_eq!(listed.get("name").unwrap().as_str(), Some("on-issue"));
}

/// What the state holds of triggers: under the agent of each tenant, by name.
struct Triggers(Vec<(String, String, Json)>);

impl Triggers {
    fn list(&self, tenant: &str) -> Vec<&Json> {
        let agent = trigger_agent(tenant);
        self.0.iter().filter(|e| e.0 == agent).map(|e| &e.2).collect()
    }

    fn fire(&self, tenant: &str, source: &str, event_type: &str) -> Vec<String> {
        self.list(tenant)
            .into_iter()
            .filter_map(|t| fire_trigger(t, source, event_type))
            .collect()
    }
}

#[test]
fn triggers_are_isolated_between_tenants() {
    let state = Triggers(vec![
        (
            trigger_agent("acme"),
            "on_pr".to_string(),
            trigger_register("github", "pull_request.opened", "acme-agent"),
        ),
        (
            trigger_agent("globex"),
            "on_any".to_string(),
            trigger_register("*", "*", "globex-agent"),
        ),
    ]);
    // Listing is per tenant.
    assert_eq!(state.list("acme").len(), 1);
    assert_eq!(state.list("globex").len(), 1);
    assert!(state.list("someone-else").is_empty());
    // Acme's event fires only Acme's trigger, even though globex has a catch-all.
    let fired = state.fire("acme", "github", "pull_request.opened");
    assert_eq!(fired, vec!["acme-agent".to_string()]);
    // And a tenant with no triggers gets none, however busy its neighbours are.
    assert!(state.fire("initech", "github", "pull_request.opened").is_empty());
    assert_eq!(trigger_agent("acme"), "__trigger:acme");
    assert_eq!(trigger_agent(""), trigger_agent("default"));
}

#[test]
fn tool_servers_are_listed_with_their_urls() {
    let entries = vec![
        ("a".to_string(), Some(tool_server_register("http://a"))),
        ("b".to_string(), Some(j(r#"{"no": "url"}"#))),
        ("c".to_string(), None),
    ];
    assert_eq!(
        tool_server_list(&entries),
        vec![("a".to_string(), "http://a".to_string())]
    );
}

#[test]
fn workflows_run_in_the_order_of_their_dependencies() {
    let nodes = vec![node("c", &["b"]), node("b", &["a"]), node("a", &[])];
    assert_eq!(topo_order(&nodes), Some(vec![2, 1, 0]));
    assert_eq!(topo_order(&[node("x", &["y"]), node("y", &["x"])]), None);
    assert_eq!(topo_order(&[node("x", &["nowhere"])]), None);
    assert_eq!(topo_order(&[]), Some(vec![]));
}

#[test]
fn run_workflow_executes_subagents_in_dep_order() {
    let nodes = vec![node("second", &["first"]), node("first", &[])];
    let mut w = WorkflowRun::run_workflow(&nodes).unwrap();
    assert_eq!(w.next_node(), Some(1));
    let step = w.child_ended(&nodes[1], 5, RunStatus::Succeeded);
    assert_eq!(step.get("node").unwrap().as_str(), Some("first"));
    assert_eq!(step.get("status").unwrap().as_str(), Some("succeeded"));
    assert_eq!(w.next_node(), Some(0));
    w.child_ended(&nodes[0], 6, RunStatus::Succeeded);
    assert_eq!(w.next_node(), None);
    let patch = w.finish(9);
    assert_eq!(patch.status, Some(RunStatus::Succeeded));
    assert_eq!(patch.ended_at, Some(9));
}

#[test]
fn a_workflow_stops_at_the_first_failure() {
    let nodes = vec![node("second", &["first"]), node("first", &[])];
    let mut w = WorkflowRun::run_workflow(&nodes).unwrap();
    w.child_ended(&nodes[1], 5, RunStatus::Failed);
    assert_eq!(w.next_node(), None);
    assert_eq!(w.finish(9).status, Some(RunStatus::Failed));
    let cycle = [node("x", &["x"])];
    match WorkflowRun::run_workflow(&cycle) {
        Err(e) => assert_eq!(
            e,
            Error::Ingest("workflow has a dependency cycle or unknown dep".to_string())
        ),
        Ok(_) => panic!("a cycle was accepted"),
    }
}

#[test]
fn replies_are_read_as_moves() {
    match read_reply("TOOL search: cats") {
        Move::Search { query } => assert_eq!(query, "cats"),
        _ => panic!("not a search"),
    }
    match read_reply("TOOL remember: cats are fluffy") {
        Move::Remember { fact } => assert_eq!(fact, "cats are fluffy"),
        _ => panic!("not a fact"),
    }
    match read_reply("TOOL call billing charge: {\"amount\": 3}") {
        Move::Call { server, tool, args } => {
            assert_eq!((server.as_str(), tool.as_str()), ("billing", "charge"));
            assert_eq!(args.get("amount").unwrap().as_u64(), Some(3));
        }
        _ => panic!("not a call"),
    }
    match read_reply("It is 42.") {
        Move::Answer { text } => assert_eq!(text, "It is 42."),
        _ => panic!("not an answer"),
    }
}

#[test]
fn rebuild_transcript_is_faithful_and_keeps_tool_seq_stable() {
    let steps = vec![
        step("run_start", r#"{ "question": "Q?" }"#),
        step(
            "tool_call",
            r#"{ "tool": "search", "query": "cats", "results": ["fluffy", "cute"] }"#,
        ),
        step(
            "tool_call",
            r#"{ "tool": "remember", "content": "cats are fluffy" }"#,
        ),
        step(
            "tool_call",
            r#"{ "tool": "billing/charge", "result": { "ok": true } }"#,
        ),
        step(
            "tool_call",
            r#"{ "tool": "email/send", "result": { "sent": 1 } }"#,
        ),
    ];
    let t = rebuild_agent_transcript(&steps);
    assert!(t.contains("Question: Q?"), "{t}");
    assert!(t.contains("TOOL search: cats"), "{t}");
    assert!(
        t.contains("fluffy | cute"),
        "search results must be replayed: {t}"
    );
    assert!(t.contains("TOOL remember: cats are fluffy"), "{t}");
    assert!(t.contains("TOOL call billing charge"), "{t}");
    assert!(t.contains("TOOL call email send"), "{t}");
    assert!(
        t.contains("\"ok\":true"),
        "external result must be replayed: {t}"
    );
    assert_eq!(
        t.matches("TOOL call ").count(),
        2,
        "tool_seq must resume at the count of prior external calls: {t}"
    );
}

#[test]
fn run_agent_loops_tool_then_answers_and_journals_steps() {
    let a = AgentLoop::start("run-1", "Question: Q?\n".to_string(), &vec![], 8);
    let (a, act) = a.step(LoopEvent::Claimed(true));
    match act {
        Action::Complete { transcript } => assert_eq!(transcript, "Question: Q?\n"),
        _ => panic!("the model is asked"),
    }
    let (a, act) = a.step(LoopEvent::Replied("TOOL search: cats".to_string()));
    match act {
        Action::Search { query } => assert_eq!(query, "cats"),
        _ => panic!("a search"),
    }
    let (a, act) = a.step(LoopEvent::Found(vec!["fluffy".to_string()]));
    match act {
        Action::Journal { event_type, payload } => {
            assert_eq!(event_type, "tool_call");
            assert_eq!(payload.get("tool").unwrap().as_str(), Some("search"));
        }
        _ => panic!("the search is journaled"),
    }
    let (a, act) = a.step(LoopEvent::Journaled);
    assert!(matches!(act, Action::Claim));
    let (a, act) = a.step(LoopEvent::Claimed(true));
    match act {
        Action::Complete { transcript } => {
            assert!(transcript.contains("TOOL search: cats"), "{transcript}");
            assert!(transcript.contains("fluffy"), "{transcript}");
        }
        _ => panic!("the model is asked again"),
    }
    let (a, act) = a.step(LoopEvent::Replied("They are fluffy.".to_string()));
    assert!(matches!(act, Action::Journal { .. }));
    let (a, act) = a.step(LoopEvent::Journaled);
    match act {
        Action::Finish { answer } => assert_eq!(answer.as_deref(), Some("They are fluffy.")),
        _ => panic!("the loop ends"),
    }
    // Nothing happens after the end.
    let (_, act) = a.step(LoopEvent::Journaled);
    assert!(matches!(act, Action::Yield));
}

#[test]
fn resume_reuses_recorded_tool_result_without_re_executing() {
    let steps = vec![step(
        "tool_call",
        r#"{ "tool": "billing/charge", "idempotency_key": "run-1:tool:0", "result": {"ok": true} }"#,
    )];
    let a = AgentLoop::start("run-1", String::new(), &steps, 8);
    let (a, _) = a.step(LoopEvent::Claimed(true));
    let (_, act) = a.step(LoopEvent::Replied("TOOL call billing charge: {}".to_string()));
    match act {
        Action::Journal { payload, .. } => {
            assert_eq!(
                payload.get("result").unwrap().get("ok").unwrap().as_bool(),
                Some(true)
            );
        }
        _ => panic!("the tool ran again"),
    }
}

#[test]
fn run_agent_calls_external_tool_via_executor() {
    let a = AgentLoop::start("run-1", String::new(), &vec![], 1);
    let (a, _) = a.step(LoopEvent::Claimed(true));
    let (a, act) = a.step(LoopEvent::Replied(
        "TOOL call billing charge: {\"amount\": 3}".to_string(),
    ));
    assert!(matches!(act, Action::CheckLeader));
    let (a, act) = a.step(LoopEvent::Leading(true));
    match act {
        Action::CallTool { server, tool, args } => {
            assert_eq!((server.as_str(), tool.as_str()), ("billing", "charge"));
            assert_eq!(
                args.get("_idempotency_key").unwrap().as_str(),
                Some("run-1:tool:0")
            );
        }
        _ => panic!("the tool is called"),
    }
    let (a, act) = a.step(LoopEvent::NoExecutor);
    match act {
        Action::Journal { payload, .. } => assert_eq!(
            payload.get("result").unwrap().get("error").unwrap().as_str(),
            Some("no tool executor configured")
        ),
        _ => panic!("the call is journaled"),
    }
    let (_, act) = a.step(LoopEvent::Journaled);
    match act {
        Action::Finish { answer } => assert!(answer.is_none(), "the turns are used up"),
        _ => panic!("the loop ends"),
    }
}

#[test]
fn a_lost_lease_stops_the_loop() {
    let a = AgentLoop::start("run-1", String::new(), &vec![], 3);
    let (a, act) = a.step(LoopEvent::Claimed(false));
    assert!(matches!(act, Action::Yield));
    let (_, act) = a.step(LoopEvent::Claimed(true));
    assert!(matches!(act, Action::Yield));
}

#[test]
fn run_agent_pauses_for_approval_then_resumes() {
    let a = AgentLoop::start("run-1", String::new(), &vec![], 3);
    let (a, _) = a.step(LoopEvent::Claimed(true));
    let (_, act) = a.step(LoopEvent::Replied("TOOL approve: deploy to prod?".to_string()));
    match act {
        Action::Approve { prompt } => assert_eq!(prompt, "deploy to prod?"),
        _ => panic!("no approval was asked for"),
    }
}

/// The key of the next outside call, and the journal entry that comes of it.
fn call(a: AgentLoop) -> (AgentLoop, String, Json) {
    let (a, _) = a.step(LoopEvent::Claimed(true));
    let (a, _) = a.step(LoopEvent::Replied("TOOL call eu/billing charge: {}".to_string()));
    let (a, act) = a.step(LoopEvent::Leading(true));
    let key = match act {
        Action::CallTool { server, args, .. } => {
            assert_eq!(server, "eu/billing");
            args.get("_idempotency_key").unwrap().as_str().unwrap().to_string()
        }
        _ => panic!("the tool is called"),
    };
    let (a, act) = a.step(LoopEvent::Returned(parse("\"TOOL call \"").unwrap()));
    match act {
        Action::Journal { payload, .. } => {
            let (a, _) = a.step(LoopEvent::Journaled);
            (a, key, payload)
        }
        _ => panic!("the call is journaled"),
    }
}

#[test]
fn keys_stay_the_same_whatever_the_transcript_says() {
    let mut steps = vec![step("run_start", r#"{ "question": "what is TOOL call for?" }"#)];
    let a = AgentLoop::start("run-1", rebuild_agent_transcript(&steps), &steps, 8);
    let (a, key, payload) = call(a);
    assert_eq!(key, "run-1:tool:0");
    steps.push(step("tool_call", &payload.to_text()));
    // The running loop and one that is taken up again go on under the same key.
    let again = AgentLoop::start("run-1", rebuild_agent_transcript(&steps), &steps, 8);
    assert_eq!(call(a).1, "run-1:tool:1");
    assert_eq!(call(again).1, "run-1:tool:1");
}

#[test]
fn a_server_with_a_slash_in_its_name_is_replayed() {
    let (_, _, payload) = call(AgentLoop::start("run-1", String::new(), &vec![], 8));
    assert_eq!(payload.get("tool").unwrap().as_str(), Some("eu/billing/charge"));
    assert_eq!(
        rebuild_agent_transcript(&vec![step("tool_call", &payload.to_text())]),
        "Assistant: TOOL call eu/billing charge\nObservation: \"TOOL call \"\n"
    );
    // A journal that names no server is cut at the first slash.
    assert_eq!(
        rebuild_agent_transcript(&vec![step("tool_call", r#"{ "tool": "a/b/c", "result": 1 }"#)]),
        "Assistant: TOOL call a b/c\nObservation: 1\n"
    );
}
