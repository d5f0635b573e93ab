//! The agent loop as a state machine.
//!
//! Whoever drives the loop performs each [`Action`] and hands back the [`LoopEvent`] that came of
//! it. Every step is journaled before the transcript moves on. The lease on the run is renewed
//! before each turn, and leadership is confirmed before each call of an outside tool. The result of
//! a call is kept under a key that stays the same when the run is taken up again, so that a call
//! whose result is in the journal is not made a second time.

use vstd::prelude::*;

use crate::json::{with_field, Json, JsonView};
use crate::runtime::agent::{
    answer_payload, call_line, call_payload, calls_in, count_calls, json_views, move_of,
    payload_of, read_reply, rebuild_agent_transcript, remember_line, remember_payload, search_line,
    search_payload, transcript_of, Move, MoveView,
};
use crate::runtime::types::{no_patch, PatchView, RunPatch, RunStatus};
use crate::text;
use crate::text::{decimal_of, occurrences, views};

verus! {

broadcast use vstd::string::group_string_axioms;

// ── Model ────────────────────────────────────────────────────────────────────────────

/// What the loop waits for.
pub enum PhaseView {
    /// Whether the lease on the run is held.
    Claim,
    /// The model's reply.
    Complete,
    /// The results of a search.
    Search { query: Seq<char> },
    /// That a fact is stored.
    Remember { fact: Seq<char> },
    /// Whether this instance leads.
    Lead { server: Seq<char>, tool: Seq<char>, args: JsonView, key: Seq<char> },
    /// The result of a tool.
    Call { server: Seq<char>, tool: Seq<char>, key: Seq<char> },
    /// That a step is journaled; `line` then joins the transcript.
    Journal { line: Seq<char>, call: bool },
    /// That the answer is journaled.
    Answer { text: Seq<char> },
    /// Nothing: the loop is over.
    Done,
}

pub struct LoopView {
    pub run: Seq<char>,
    pub transcript: Seq<char>,
    pub tool_seq: nat,
    pub executed: Seq<(Seq<char>, JsonView)>,
    pub turns: nat,
    pub phase: PhaseView,
}

pub enum EventView {
    Claimed(bool),
    Replied(Seq<char>),
    Found(Seq<Seq<char>>),
    Stored,
    Leading(bool),
    Returned(JsonView),
    CallFailed(Seq<char>),
    NoExecutor,
    Journaled,
}

pub enum ActionView {
    /// Claim or renew the lease on the run.
    Claim,
    /// Ask the model for a reply to the transcript.
    Complete { transcript: Seq<char> },
    Search { query: Seq<char> },
    Remember { fact: Seq<char> },
    /// Find out whether this instance leads.
    CheckLeader,
    CallTool { server: Seq<char>, tool: Seq<char>, args: JsonView },
    /// Journal a step.
    Journal { event_type: Seq<char>, payload: JsonView },
    /// Pause the run for approval, and hand back the run as it stands.
    Approve { prompt: Seq<char> },
    /// Close the run with an answer, or without one.
    Finish { answer: Option<Seq<char>> },
    /// Leave the run as it is, and hand it back.
    Yield,
}

/// The key of the `n`-th outside call of a run.
pub open spec fn call_key(run: Seq<char>, n: nat) -> Seq<char> {
    run + ":tool:"@ + decimal_of(n)
}

/// The result that is recorded under a key, the latest where there are several.
pub open spec fn recorded(executed: Seq<(Seq<char>, JsonView)>, key: Seq<char>) -> Option<JsonView>
    decreases executed.len(),
{
    if executed.len() == 0 {
        None
    } else if executed.last().0 == key {
        Some(executed.last().1)
    } else {
        recorded(executed.drop_last(), key)
    }
}

/// The results of outside calls in a journal.
pub open spec fn executed_in(steps: Seq<JsonView>) -> Seq<(Seq<char>, JsonView)>
    decreases steps.len(),
{
    if steps.len() == 0 {
        seq![]
    } else {
        let before = executed_in(steps.drop_last());
        let p = payload_of(steps.last());
        match (p.field("idempotency_key"@), p.field("result"@)) {
            (Some(JsonView::Str(key)), Some(result)) => before.push((key, result)),
            _ => before,
        }
    }
}

/// How many outside calls an earlier attempt has made. Where the transcript is that of the journal,
/// the journal tells; a transcript from elsewhere is searched for them.
pub open spec fn calls_before(transcript: Seq<char>, steps: Seq<JsonView>) -> nat {
    if transcript == transcript_of(steps) {
        calls_in(steps)
    } else {
        occurrences(transcript, "TOOL call "@)
    }
}

/// The loop at its start.
pub open spec fn started(
    run: Seq<char>,
    transcript: Seq<char>,
    steps: Seq<JsonView>,
    max_turns: nat,
) -> LoopView {
    LoopView {
        run,
        transcript,
        tool_seq: calls_before(transcript, steps),
        executed: executed_in(steps),
        turns: if max_turns == 0 {
            1
        } else {
            max_turns
        },
        phase: PhaseView::Claim,
    }
}

/// Is this the kind of event that the loop waits for?
pub open spec fn expected(phase: PhaseView, event: EventView) -> bool {
    match phase {
        PhaseView::Claim => event is Claimed,
        PhaseView::Complete => event is Replied,
        PhaseView::Search { .. } => event is Found,
        PhaseView::Remember { .. } => event is Stored,
        PhaseView::Lead { .. } => event is Leading,
        PhaseView::Call { .. } => event is Returned || event is CallFailed || event is NoExecutor,
        PhaseView::Journal { .. } => event is Journaled,
        PhaseView::Answer { .. } => event is Journaled,
        PhaseView::Done => false,
    }
}

pub open spec fn at_phase(s: LoopView, phase: PhaseView) -> LoopView {
    LoopView { phase, ..s }
}

/// A tool step: what is journaled, and what joins the transcript.
pub open spec fn journaling(
    s: LoopView,
    line: Seq<char>,
    call: bool,
    payload: JsonView,
) -> (LoopView, ActionView) {
    (
        at_phase(s, PhaseView::Journal { line, call }),
        ActionView::Journal { event_type: "tool_call"@, payload },
    )
}

/// An outside call whose result is known.
pub open spec fn called(
    s: LoopView,
    server: Seq<char>,
    tool: Seq<char>,
    key: Seq<char>,
    result: JsonView,
) -> (LoopView, ActionView) {
    journaling(
        s,
        call_line(server, tool, crate::json::compact(result)),
        true,
        call_payload(server, tool, key, result),
    )
}

/// The arguments of a call with its key.
pub open spec fn keyed(args: JsonView, key: Seq<char>) -> JsonView {
    match args {
        JsonView::Object(fields) => JsonView::Object(
            with_field(fields, "_idempotency_key"@, JsonView::Str(key)),
        ),
        _ => args,
    }
}

/// An error as the result of a call.
pub open spec fn call_error(e: Seq<char>) -> JsonView {
    JsonView::Object(seq![("error"@, JsonView::Str(e))])
}

/// What a reply sets off.
pub open spec fn replied(s: LoopView, reply: Seq<char>) -> (LoopView, ActionView) {
    match move_of(reply) {
        MoveView::Search { query } => (
            at_phase(s, PhaseView::Search { query }),
            ActionView::Search { query },
        ),
        MoveView::Remember { fact } => (
            at_phase(s, PhaseView::Remember { fact }),
            ActionView::Remember { fact },
        ),
        MoveView::Call { server, tool, args } => {
            let key = call_key(s.run, s.tool_seq);
            match recorded(s.executed, key) {
                Some(result) => called(s, server, tool, key, result),
                None => (
                    at_phase(s, PhaseView::Lead { server, tool, args, key }),
                    ActionView::CheckLeader,
                ),
            }
        },
        MoveView::Approve { prompt } => (
            at_phase(s, PhaseView::Done),
            ActionView::Approve { prompt },
        ),
        MoveView::Answer { text } => (
            at_phase(s, PhaseView::Answer { text }),
            ActionView::Journal { event_type: "llm_answer"@, payload: answer_payload(text) },
        ),
    }
}

/// A call that came back.
pub open spec fn returned(
    s: LoopView,
    server: Seq<char>,
    tool: Seq<char>,
    key: Seq<char>,
    result: JsonView,
) -> (LoopView, ActionView) {
    called(
        LoopView { executed: s.executed.push((key, result)), ..s },
        server,
        tool,
        key,
        result,
    )
}

/// A step that is journaled: the turn is over.
pub open spec fn turned(s: LoopView, line: Seq<char>, call: bool) -> (LoopView, ActionView) {
    let next = LoopView {
        transcript: s.transcript + line,
        tool_seq: if call {
            s.tool_seq + 1
        } else {
            s.tool_seq
        },
        turns: (s.turns - 1) as nat,
        ..s
    };
    if s.turns == 1 {
        (at_phase(next, PhaseView::Done), ActionView::Finish { answer: None })
    } else {
        (at_phase(next, PhaseView::Claim), ActionView::Claim)
    }
}

/// One step of the loop.
pub open spec fn advanced(s: LoopView, event: EventView) -> (LoopView, ActionView) {
    match (s.phase, event) {
        (PhaseView::Claim, EventView::Claimed(held)) => if held {
            (
                at_phase(s, PhaseView::Complete),
                ActionView::Complete { transcript: s.transcript },
            )
        } else {
            (at_phase(s, PhaseView::Done), ActionView::Yield)
        },
        (PhaseView::Complete, EventView::Replied(reply)) => replied(s, reply),
        (PhaseView::Search { query }, EventView::Found(results)) => journaling(
            s,
            search_line(query, results),
            false,
            search_payload(query, results),
        ),
        (PhaseView::Remember { fact }, EventView::Stored) => journaling(
            s,
            remember_line(fact),
            false,
            remember_payload(fact),
        ),
        (PhaseView::Lead { server, tool, args, key }, EventView::Leading(leads)) => if leads {
            (
                at_phase(s, PhaseView::Call { server, tool, key }),
                ActionView::CallTool { server, tool, args: keyed(args, key) },
            )
        } else {
            (at_phase(s, PhaseView::Done), ActionView::Yield)
        },
        (PhaseView::Call { server, tool, key }, EventView::Returned(result)) => returned(
            s,
            server,
            tool,
            key,
            result,
        ),
        (PhaseView::Call { server, tool, key }, EventView::CallFailed(e)) => returned(
            s,
            server,
            tool,
            key,
            call_error(e),
        ),
        (PhaseView::Call { server, tool, key }, EventView::NoExecutor) => returned(
            s,
            server,
            tool,
            key,
            call_error("no tool executor configured"@),
        ),
        (PhaseView::Journal { line, call }, EventView::Journaled) => turned(s, line, call),
        (PhaseView::Answer { text }, EventView::Journaled) => (
            at_phase(s, PhaseView::Done),
            ActionView::Finish { answer: Some(text) },
        ),
        _ => (s, ActionView::Yield),
    }
}

/// How a run ends: with an answer it has succeeded, without one it has failed.
pub open spec fn closing(answer: Option<Seq<char>>, now: i128) -> PatchView {
    match answer {
        Some(a) => PatchView {
            status: Some(RunStatus::Succeeded),
            result: Some(answer_payload(a)),
            ended_at: Some(now),
            ..no_patch()
        },
        None => PatchView {
            status: Some(RunStatus::Failed),
            error: Some("max turns exceeded without a final answer"@),
            ended_at: Some(now),
            ..no_patch()
        },
    }
}

// ── Code ─────────────────────────────────────────────────────────────────────────────

pub enum Phase {
    Claim,
    Complete,
    Search { query: String },
    Remember { fact: String },
    Lead { server: String, tool: String, args: Json, key: String },
    Call { server: String, tool: String, key: String },
    Journal { line: String, call: bool },
    Answer { text: String },
    Done,
}

impl View for Phase {
    type V = PhaseView;

    open spec fn view(&self) -> PhaseView {
        match *self {
            Phase::Claim => PhaseView::Claim,
            Phase::Complete => PhaseView::Complete,
            Phase::Search { query } => PhaseView::Search { query: query@ },
            Phase::Remember { fact } => PhaseView::Remember { fact: fact@ },
            Phase::Lead { server, tool, args, key } => PhaseView::Lead {
                server: server@,
                tool: tool@,
                args: args@,
                key: key@,
            },
            Phase::Call { server, tool, key } => PhaseView::Call {
                server: server@,
                tool: tool@,
                key: key@,
            },
            Phase::Journal { line, call } => PhaseView::Journal { line: line@, call },
            Phase::Answer { text } => PhaseView::Answer { text: text@ },
            Phase::Done => PhaseView::Done,
        }
    }
}

/// What came of an action.
pub enum LoopEvent {
    Claimed(bool),
    Replied(String),
    Found(Vec<String>),
    Stored,
    Leading(bool),
    Returned(Json),
    CallFailed(String),
    NoExecutor,
    Journaled,
}

impl View for LoopEvent {
    type V = EventView;

    open spec fn view(&self) -> EventView {
        match *self {
            LoopEvent::Claimed(held) => EventView::Claimed(held),
            LoopEvent::Replied(reply) => EventView::Replied(reply@),
            LoopEvent::Found(results) => EventView::Found(views(results@)),
            LoopEvent::Stored => EventView::Stored,
            LoopEvent::Leading(leads) => EventView::Leading(leads),
            LoopEvent::Returned(result) => EventView::Returned(result@),
            LoopEvent::CallFailed(e) => EventView::CallFailed(e@),
            LoopEvent::NoExecutor => EventView::NoExecutor,
            LoopEvent::Journaled => EventView::Journaled,
        }
    }
}

/// What the driver of the loop does next.
pub enum Action {
    Claim,
    Complete { transcript: String },
    Search { query: String },
    Remember { fact: String },
    CheckLeader,
    CallTool { server: String, tool: String, args: Json },
    Journal { event_type: String, payload: Json },
    Approve { prompt: String },
    Finish { answer: Option<String> },
    Yield,
}

impl View for Action {
    type V = ActionView;

    open spec fn view(&self) -> ActionView {
        match *self {
            Action::Claim => ActionView::Claim,
            Action::Complete { transcript } => ActionView::Complete { transcript: transcript@ },
            Action::Search { query } => ActionView::Search { query: query@ },
            Action::Remember { fact } => ActionView::Remember { fact: fact@ },
            Action::CheckLeader => ActionView::CheckLeader,
            Action::CallTool { server, tool, args } => ActionView::CallTool {
                server: server@,
                tool: tool@,
                args: args@,
            },
            Action::Journal { event_type, payload } => ActionView::Journal {
                event_type: event_type@,
                payload: payload@,
            },
            Action::Approve { prompt } => ActionView::Approve { prompt: prompt@ },
            Action::Finish { answer } => ActionView::Finish { answer: text::opt_view(answer) },
            Action::Yield => ActionView::Yield,
        }
    }
}

/// The state of an agent loop.
pub struct AgentLoop {
    run: String,
    transcript: String,
    tool_seq: u128,
    executed: Vec<(String, Json)>,
    turns: usize,
    phase: Phase,
}

impl View for AgentLoop {
    type V = LoopView;

    closed spec fn view(&self) -> LoopView {
        LoopView {
            run: self.run@,
            transcript: self.transcript@,
            tool_seq: self.tool_seq as nat,
            executed: crate::json::field_views(self.executed@),
            turns: self.turns as nat,
            phase: self.phase@,
        }
    }
}

/// The results of outside calls in a journal.
fn read_executed(steps: &Vec<Json>) -> (r: Vec<(String, Json)>)
    ensures
        crate::json::field_views(r@) == executed_in(json_views(steps@)),
{
    let ghost all = json_views(steps@);
    let mut out: Vec<(String, Json)> = Vec::new();
    let mut i: usize = 0;
    proof {
        assert(all.take(0) =~= seq![]);
        assert(crate::json::field_views(out@) =~= seq![]);
    }
    while i < steps.len()
        invariant
            i <= steps.len(),
            all == json_views(steps@),
            crate::json::field_views(out@) == executed_in(all.take(i as int)),
        decreases steps.len() - i,
    {
        let step = &steps[i];
        proof {
            assert(all.take(i + 1).drop_last() =~= all.take(i as int));
            assert(all.take(i + 1).last() == step@);
        }
        if let Some(p) = step.get("payload") {
            if let Some(Json::Str(key)) = p.get("idempotency_key") {
                if let Some(result) = p.get("result") {
                    let ghost before = out@;
                    out.push((key.clone(), result.copy()));
                    proof {
                        assert(crate::json::field_views(out@) =~= crate::json::field_views(
                            before,
                        ).push((key@, result@)));
                    }
                }
            }
        }
        i += 1;
    }
    proof {
        assert(all.take(all.len() as int) =~= all);
    }
    out
}

fn find_recorded(executed: &Vec<(String, Json)>, key: &str) -> (r: Option<Json>)
    ensures
        match r {
            Some(j) => recorded(crate::json::field_views(executed@), key@) == Some(j@),
            None => recorded(crate::json::field_views(executed@), key@) is None,
        },
{
    let ghost all = crate::json::field_views(executed@);
    let mut n: usize = executed.len();
    proof {
        assert(all.take(n as int) =~= all);
    }
    while n > 0
        invariant
            n <= executed.len(),
            all == crate::json::field_views(executed@),
            recorded(all.take(n as int), key@) == recorded(all, key@),
        decreases n,
    {
        proof {
            assert(all.take(n as int).last() == all[n - 1]);
            assert(all.take(n as int).drop_last() =~= all.take(n - 1));
        }
        if text::same(executed[n - 1].0.as_str(), key) {
            return Some(executed[n - 1].1.copy());
        }
        n -= 1;
    }
    None
}

impl AgentLoop {
    #[verifier::type_invariant]
    spec fn bounded(self) -> bool {
        &&& self.tool_seq + self.turns <= 2 * u64::MAX
        &&& self.turns >= 1 || self.phase is Done
    }

    /// The loop of a run at its start, with the journal of what earlier attempts did.
    pub fn start(run: &str, transcript: String, steps: &Vec<Json>, max_turns: usize) -> (r: AgentLoop)
        ensures
            r@ == started(run@, transcript@, json_views(steps@), max_turns as nat),
    {
        proof {
            reveal_strlit("TOOL call ");
        }
        let replayed = rebuild_agent_transcript(steps);
        let tool_seq: usize = if text::same(transcript.as_str(), replayed.as_str()) {
            count_calls(steps)
        } else {
            text::count(transcript.as_str(), "TOOL call ")
        };
        AgentLoop {
            run: run.to_owned(),
            transcript,
            tool_seq: tool_seq as u128,
            executed: read_executed(steps),
            turns: if max_turns == 0 {
                1
            } else {
                max_turns
            },
            phase: Phase::Claim,
        }
    }
}

fn search_step(query: &str, results: &Vec<String>) -> (r: Json)
    ensures
        r@ == search_payload(query@, views(results@)),
{
    crate::json::object3(
        "tool",
        crate::json::string("search"),
        "query",
        crate::json::string(query),
        "results",
        crate::json::strings(results),
    )
}

fn remember_step(fact: &str) -> (r: Json)
    ensures
        r@ == remember_payload(fact@),
{
    crate::json::object2(
        "tool",
        crate::json::string("remember"),
        "content",
        crate::json::string(fact),
    )
}

fn call_step(server: &str, tool: &str, key: &str, result: &Json) -> (r: Json)
    ensures
        r@ == call_payload(server@, tool@, key@, result@),
{
    crate::json::object4(
        "tool",
        Json::Str(text::cat3(server, "/", tool)),
        "server",
        crate::json::string(server),
        "idempotency_key",
        crate::json::string(key),
        "result",
        result.copy(),
    )
}

fn error_result(e: &str) -> (r: Json)
    ensures
        r@ == call_error(e@),
{
    crate::json::object1("error", crate::json::string(e))
}

fn with_key(args: Json, key: &str) -> (r: Json)
    ensures
        r@ == keyed(args@, key@),
{
    match args {
        Json::Object(fields) => {
            let ghost before = crate::json::field_views(fields@);
            proof {
                assert(args@->Object_0 =~= before);
            }
            let mut fields = fields;
            crate::json::set_field(&mut fields, "_idempotency_key", crate::json::string(key));
            crate::json::object(fields)
        },
        _ => args,
    }
}

impl AgentLoop {
    fn in_phase(self, phase: Phase) -> (r: AgentLoop)
        requires
            self@.turns >= 1 || phase is Done,
        ensures
            r@ == at_phase(self@, phase@),
    {
        proof {
            use_type_invariant(&self);
        }
        AgentLoop { phase, ..self }
    }

    fn journal(self, line: String, call: bool, payload: Json) -> (r: (AgentLoop, Action))
        requires
            self@.turns >= 1,
        ensures
            (r.0@, r.1@) == journaling(self@, line@, call, payload@),
    {
        (
            self.in_phase(Phase::Journal { line, call }),
            Action::Journal { event_type: "tool_call".to_owned(), payload },
        )
    }

    fn call_known(self, server: &str, tool: &str, key: &str, result: &Json) -> (r: (
        AgentLoop,
        Action,
    ))
        requires
            self@.turns >= 1,
        ensures
            (r.0@, r.1@) == called(self@, server@, tool@, key@, result@),
    {
        let line = crate::runtime::agent::write_call(server, tool, result.to_text().as_str());
        let payload = call_step(server, tool, key, result);
        self.journal(line, true, payload)
    }

    fn on_reply(self, reply: &str) -> (r: (AgentLoop, Action))
        requires
            self@.turns >= 1,
        ensures
            (r.0@, r.1@) == replied(self@, reply@),
    {
        match read_reply(reply) {
            Move::Search { query } => {
                let action = Action::Search { query: query.clone() };
                (self.in_phase(Phase::Search { query }), action)
            },
            Move::Remember { fact } => {
                let action = Action::Remember { fact: fact.clone() };
                (self.in_phase(Phase::Remember { fact }), action)
            },
            Move::Call { server, tool, args } => {
                let key = text::cat3(
                    self.run.as_str(),
                    ":tool:",
                    text::decimal_wide(self.tool_seq).as_str(),
                );
                match find_recorded(&self.executed, key.as_str()) {
                    Some(result) => self.call_known(
                        server.as_str(),
                        tool.as_str(),
                        key.as_str(),
                        &result,
                    ),
                    None => (
                        self.in_phase(Phase::Lead { server, tool, args, key }),
                        Action::CheckLeader,
                    ),
                }
            },
            Move::Approve { prompt } => (self.in_phase(Phase::Done), Action::Approve { prompt }),
            Move::Answer { text } => {
                let payload = crate::json::object1("answer", crate::json::string(text.as_str()));
                (
                    self.in_phase(Phase::Answer { text }),
                    Action::Journal { event_type: "llm_answer".to_owned(), payload },
                )
            },
        }
    }

    fn on_result(self, server: &str, tool: &str, key: &str, result: Json) -> (r: (
        AgentLoop,
        Action,
    ))
        requires
            self@.turns >= 1,
        ensures
            (r.0@, r.1@) == returned(self@, server@, tool@, key@, result@),
    {
        proof {
            use_type_invariant(&self);
        }
        let ghost before = crate::json::field_views(self.executed@);
        let mut executed = self.executed;
        executed.push((key.to_owned(), result.copy()));
        proof {
            assert(crate::json::field_views(executed@) =~= before.push((key@, result@)));
        }
        let next = AgentLoop { executed, ..self };
        next.call_known(server, tool, key, &result)
    }

    fn on_journaled(self, line: &str, call: bool) -> (r: (AgentLoop, Action))
        requires
            self@.turns >= 1,
        ensures
            (r.0@, r.1@) == turned(self@, line@, call),
    {
        proof {
            use_type_invariant(&self);
        }
        let mut transcript = self.transcript;
        transcript.append(line);
        let tool_seq: u128 = if call {
            self.tool_seq + 1
        } else {
            self.tool_seq
        };
        let turns: usize = self.turns - 1;
        if turns == 0 {
            (
                AgentLoop { transcript, tool_seq, turns, phase: Phase::Done, ..self },
                Action::Finish { answer: None },
            )
        } else {
            (
                AgentLoop { transcript, tool_seq, turns, phase: Phase::Claim, ..self },
                Action::Claim,
            )
        }
    }

    /// One step of the loop. An event that the loop does not wait for changes nothing.
    pub fn step(self, event: LoopEvent) -> (r: (AgentLoop, Action))
        ensures
            (r.0@, r.1@) == advanced(self@, event@),
    {
        proof {
            use_type_invariant(&self);
        }
        match self.phase {
            Phase::Claim => {
                if let LoopEvent::Claimed(held) = event {
                    if held {
                        let transcript = self.transcript.clone();
                        return (self.in_phase(Phase::Complete), Action::Complete { transcript });
                    }
                    return (self.in_phase(Phase::Done), Action::Yield);
                }
            },
            Phase::Complete => {
                if let LoopEvent::Replied(reply) = event {
                    return self.on_reply(reply.as_str());
                }
            },
            Phase::Search { ref query } => {
                if let LoopEvent::Found(results) = event {
                    let line = crate::runtime::agent::write_search(query.as_str(), &results);
                    let payload = search_step(query.as_str(), &results);
                    return self.journal(line, false, payload);
                }
            },
            Phase::Remember { ref fact } => {
                if let LoopEvent::Stored = event {
                    let line = crate::runtime::agent::write_remember(fact.as_str());
                    let payload = remember_step(fact.as_str());
                    return self.journal(line, false, payload);
                }
            },
            Phase::Lead { ref server, ref tool, ref args, ref key } => {
                if let LoopEvent::Leading(leads) = event {
                    if leads {
                        let action = Action::CallTool {
                            server: server.clone(),
                            tool: tool.clone(),
                            args: with_key(args.copy(), key.as_str()),
                        };
                        let phase = Phase::Call {
                            server: server.clone(),
                            tool: tool.clone(),
                            key: key.clone(),
                        };
                        return (self.in_phase(phase), action);
                    }
                    return (self.in_phase(Phase::Done), Action::Yield);
                }
            },
            Phase::Call { ref server, ref tool, ref key } => {
                let result = match event {
                    LoopEvent::Returned(result) => Some(result),
                    LoopEvent::CallFailed(e) => Some(error_result(e.as_str())),
                    LoopEvent::NoExecutor => Some(error_result("no tool executor configured")),
                    _ => None,
                };
                if let Some(result) = result {
                    let server = server.clone();
                    let tool = tool.clone();
                    let key = key.clone();
                    return self.on_result(server.as_str(), tool.as_str(), key.as_str(), result);
                }
            },
            Phase::Journal { ref line, call } => {
                if let LoopEvent::Journaled = event {
                    let line = line.clone();
                    return self.on_journaled(line.as_str(), call);
                }
            },
            Phase::Answer { ref text } => {
                if let LoopEvent::Journaled = event {
                    let answer = Some(text.clone());
                    return (self.in_phase(Phase::Done), Action::Finish { answer });
                }
            },
            Phase::Done => {},
        }
        (self, Action::Yield)
    }
}

/// The patch that closes a run: with an answer it has succeeded, without one it has failed.
pub fn closing_patch(answer: Option<&str>, now: i128) -> (r: RunPatch)
    ensures
        r@ == closing(text::opt_str_view(answer), now),
{
    match answer {
        Some(a) => RunPatch {
            status: Some(RunStatus::Succeeded),
            result: Some(crate::json::object1("answer", crate::json::string(a))),
            error: None,
            cursor: None,
            started_at: None,
            ended_at: Some(now),
        },
        None => RunPatch {
            status: Some(RunStatus::Failed),
            result: None,
            error: Some("max turns exceeded without a final answer".to_owned()),
            cursor: None,
            started_at: None,
            ended_at: Some(now),
        },
    }
}

} // verus!
