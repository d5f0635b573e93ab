//! What holds of every run of the agent loop.

use vstd::prelude::*;

use crate::json::{lookup, JsonView};
use crate::runtime::agent::{
    call_line, call_payload, calls_in, move_of, payload_of, remember_line, remember_payload,
    search_line, search_payload, step_line, strings_in, text_field, transcript_of,
};
use crate::runtime::agent_loop::{
    advanced, call_key, closing, executed_in, expected, keyed, recorded, started, ActionView,
    EventView, LoopView, PhaseView,
};
use crate::runtime::types::{terminal, RunStatus};
use crate::text::begins;

verus! {

// ── Termination ──────────────────────────────────────────────────────────────────────

/// How far a loop can still go at most.
pub open spec fn distance(s: LoopView) -> nat {
    match s.phase {
        PhaseView::Claim => 6 * s.turns,
        PhaseView::Complete => (6 * s.turns - 1) as nat,
        PhaseView::Search { .. } => (6 * s.turns - 2) as nat,
        PhaseView::Remember { .. } => (6 * s.turns - 2) as nat,
        PhaseView::Lead { .. } => (6 * s.turns - 2) as nat,
        PhaseView::Call { .. } => (6 * s.turns - 3) as nat,
        PhaseView::Journal { .. } => (6 * s.turns - 4) as nat,
        PhaseView::Answer { .. } => (6 * s.turns - 4) as nat,
        PhaseView::Done => 0,
    }
}

/// A loop that is not over has a turn left.
pub open spec fn sound(s: LoopView) -> bool {
    &&& !(s.phase is Done) ==> s.turns >= 1
    &&& match s.phase {
        PhaseView::Lead { key, .. } => {
            &&& key == call_key(s.run, s.tool_seq)
            &&& recorded(s.executed, key) is None
        },
        PhaseView::Call { key, .. } => {
            &&& key == call_key(s.run, s.tool_seq)
            &&& recorded(s.executed, key) is None
        },
        _ => true,
    }
}

/// A loop is sound at its start.
pub proof fn law_start_is_sound(
    run: Seq<char>,
    transcript: Seq<char>,
    steps: Seq<JsonView>,
    max_turns: nat,
)
    ensures
        sound(started(run, transcript, steps, max_turns)),
        distance(started(run, transcript, steps, max_turns)) == 6 * if max_turns == 0 {
            1nat
        } else {
            max_turns
        },
{
}

/// Every event that the loop waits for brings it nearer to its end and leaves it sound: a loop asks
/// the model once per turn at most, and ends.
pub proof fn law_loop_ends(s: LoopView, event: EventView)
    requires
        sound(s),
        expected(s.phase, event),
    ensures
        sound(advanced(s, event).0),
        distance(advanced(s, event).0) < distance(s),
{
}

// ── Outside calls ────────────────────────────────────────────────────────────────────

/// An outside tool is called only by an instance that has just confirmed that it leads, under the
/// next key of the run, and only where no result is recorded under that key.
pub proof fn law_calls_are_made_once(s: LoopView, event: EventView)
    requires
        sound(s),
        expected(s.phase, event),
        advanced(s, event).1 is CallTool,
    ensures
        event == EventView::Leading(true),
        recorded(s.executed, call_key(s.run, s.tool_seq)) is None,
        advanced(s, event).1->args == keyed(s.phase->Lead_args, call_key(s.run, s.tool_seq)),
{
}

/// The result of a call is recorded under its key before it is journaled.
pub proof fn law_results_are_recorded(s: LoopView, event: EventView)
    requires
        sound(s),
        s.phase is Call,
        expected(s.phase, event),
    ensures
        recorded(advanced(s, event).0.executed, call_key(s.run, s.tool_seq)) is Some,
        advanced(s, event).1 is Journal,
{
    let key = call_key(s.run, s.tool_seq);
    let next = advanced(s, event).0.executed;
    assert(next.last().0 == key);
}

/// A call whose result is in the journal of an earlier attempt is not made again: the recorded
/// result is used.
pub proof fn law_journaled_calls_are_reused(
    run: Seq<char>,
    transcript: Seq<char>,
    steps: Seq<JsonView>,
    max_turns: nat,
    i: int,
)
    requires
        0 <= i < steps.len(),
        payload_of(steps[i]).field("idempotency_key"@) == Some(
            JsonView::Str(call_key(run, started(run, transcript, steps, max_turns).tool_seq)),
        ),
        payload_of(steps[i]).field("result"@) is Some,
    ensures
        recorded(
            started(run, transcript, steps, max_turns).executed,
            call_key(run, started(run, transcript, steps, max_turns).tool_seq),
        ) is Some,
{
    lemma_executed(
        steps,
        i,
        call_key(run, started(run, transcript, steps, max_turns).tool_seq),
    );
}

proof fn lemma_executed(steps: Seq<JsonView>, i: int, key: Seq<char>)
    requires
        0 <= i < steps.len(),
        payload_of(steps[i]).field("idempotency_key"@) == Some(JsonView::Str(key)),
        payload_of(steps[i]).field("result"@) is Some,
    ensures
        recorded(executed_in(steps), key) is Some,
    decreases steps.len(),
{
    let rest = steps.drop_last();
    let list = executed_in(steps);
    if i < rest.len() {
        assert(rest[i] == steps[i]);
        lemma_executed(rest, i, key);
        if list != executed_in(rest) {
            assert(list.drop_last() =~= executed_in(rest));
        }
    } else {
        assert(list.last().0 == key);
    }
}

/// Without the lease, or without leadership at an outside call, the loop stops and touches nothing.
pub proof fn law_lost_lease_stops_the_loop(s: LoopView, event: EventView)
    requires
        event == EventView::Claimed(false) && s.phase is Claim || event == EventView::Leading(false)
            && s.phase is Lead,
    ensures
        advanced(s, event).1 == ActionView::Yield,
        advanced(s, event).0 == (LoopView { phase: PhaseView::Done, ..s }),
{
}

/// A loop that is over leaves its run in a terminal state: succeeded with an answer, failed without
/// one.
pub proof fn law_finished_runs_are_terminal(answer: Option<Seq<char>>, now: i128)
    ensures
        closing(answer, now).status is Some,
        terminal(closing(answer, now).status->0),
        closing(answer, now).status == Some(RunStatus::Succeeded) <==> answer is Some,
        closing(answer, now).ended_at == Some(now),
{
}

// ── Taking a run up again ────────────────────────────────────────────────────────────

/// A journaled search is replayed as the line that it added to the transcript.
pub proof fn law_searches_are_replayed(query: Seq<char>, results: Seq<Seq<char>>)
    ensures
        step_line("tool_call"@, search_payload(query, results)) == search_line(query, results),
{
    reveal_strlit("run_start");
    reveal_strlit("tool_call");
    reveal_strlit("tool");
    reveal_strlit("query");
    reveal_strlit("results");
    let p = search_payload(query, results);
    let fields = p->Object_0;
    assert("tool"@.len() == 4 && "query"@.len() == 5 && "results"@.len() == 7);
    assert("tool_call"@[0] == 't' && "run_start"@[0] == 'r');
    reveal_with_fuel(lookup, 4);
    assert(fields.drop_first()[0] == fields[1]);
    assert(fields.drop_first().drop_first()[0] == fields[2]);
    lemma_strings_in(results);
    assert(p.field("tool"@) == Some(JsonView::Str("search"@)));
    assert(p.field("query"@) == Some(JsonView::Str(query)));
    assert(p.field("results"@) == Some(JsonView::Array(crate::json::string_views(results))));
}

proof fn lemma_strings_in(v: Seq<Seq<char>>)
    ensures
        strings_in(crate::json::string_views(v)) == v,
    decreases v.len(),
{
    let j = crate::json::string_views(v);
    if v.len() > 0 {
        assert(j.drop_last() =~= crate::json::string_views(v.drop_last()));
        lemma_strings_in(v.drop_last());
        assert(v.drop_last().push(v.last()) =~= v);
    } else {
        assert(strings_in(j) =~= v);
    }
}

/// A journaled fact is replayed as the line that it added to the transcript.
pub proof fn law_facts_are_replayed(fact: Seq<char>)
    ensures
        step_line("tool_call"@, remember_payload(fact)) == remember_line(fact),
{
    reveal_strlit("run_start");
    reveal_strlit("tool_call");
    reveal_strlit("tool");
    reveal_strlit("content");
    reveal_strlit("search");
    reveal_strlit("remember");
    let p = remember_payload(fact);
    let fields = p->Object_0;
    assert("tool"@.len() == 4 && "content"@.len() == 7);
    assert("search"@.len() == 6 && "remember"@.len() == 8);
    assert("tool_call"@[0] == 't' && "run_start"@[0] == 'r');
    reveal_with_fuel(lookup, 3);
    assert(fields.drop_first()[0] == fields[1]);
    assert(p.field("tool"@) == Some(JsonView::Str("remember"@)));
    assert(p.field("content"@) == Some(JsonView::Str(fact)));
}

/// A journaled outside call is replayed as the line that it added to the transcript.
pub proof fn law_calls_are_replayed(
    server: Seq<char>,
    tool: Seq<char>,
    key: Seq<char>,
    result: JsonView,
)
    ensures
        step_line("tool_call"@, call_payload(server, tool, key, result)) == call_line(
            server,
            tool,
            crate::json::compact(result),
        ),
{
    reveal_strlit("run_start");
    reveal_strlit("tool_call");
    reveal_strlit("/");
    assert("tool_call"@[0] == 't' && "run_start"@[0] == 'r');
    lemma_call_fields(server, tool, key, result);
    let name = server + "/"@ + tool;
    let k = server.len() as int;
    assert(name.take(k + 1) =~= server + "/"@);
    assert(begins(name, server + "/"@));
    assert(name.take(k) =~= server);
    assert(name.skip(k + 1) =~= tool);
}

/// What a journaled call holds.
proof fn lemma_call_fields(server: Seq<char>, tool: Seq<char>, key: Seq<char>, result: JsonView)
    ensures
        ({
            let p = call_payload(server, tool, key, result);
            &&& p.field("tool"@) == Some(JsonView::Str(server + "/"@ + tool))
            &&& p.field("server"@) == Some(JsonView::Str(server))
            &&& p.field("idempotency_key"@) == Some(JsonView::Str(key))
            &&& p.field("result"@) == Some(result)
            &&& server + "/"@ + tool != "search"@
            &&& server + "/"@ + tool != "remember"@
        }),
{
    reveal_strlit("tool");
    reveal_strlit("server");
    reveal_strlit("idempotency_key");
    reveal_strlit("result");
    reveal_strlit("/");
    let p = call_payload(server, tool, key, result);
    let fields = p->Object_0;
    assert("tool"@.len() == 4 && "idempotency_key"@.len() == 15);
    assert("server"@[0] == 's' && "result"@[0] == 'r' && "server"@.len() == 6 && "result"@.len()
        == 6);
    reveal_with_fuel(lookup, 5);
    let rest = fields.drop_first();
    assert(rest[0] == fields[1]);
    assert(rest.drop_first()[0] == fields[2]);
    assert(rest.drop_first().drop_first()[0] == fields[3]);
    let name = server + "/"@ + tool;
    let n = server.len() as int;
    assert(name[n] == '/');
    lemma_no_slash();
    assert(name != "search"@) by {
        if name == "search"@ {
            assert("search"@[n] == '/');
        }
    }
    assert(name != "remember"@) by {
        if name == "remember"@ {
            assert("remember"@[n] == '/');
        }
    }
}

proof fn lemma_no_slash()
    ensures
        forall|i: int| 0 <= i < "search"@.len() ==> "search"@[i] != '/',
        forall|i: int| 0 <= i < "remember"@.len() ==> "remember"@[i] != '/',
{
    reveal_strlit("search");
    reveal_strlit("remember");
}

/// What is journaled of a search or a fact is no outside call, and holds no result of one.
proof fn lemma_other_fields(query: Seq<char>, results: Seq<Seq<char>>, fact: Seq<char>)
    ensures
        search_payload(query, results).field("tool"@) == Some(JsonView::Str("search"@)),
        search_payload(query, results).field("idempotency_key"@) is None,
        remember_payload(fact).field("tool"@) == Some(JsonView::Str("remember"@)),
        remember_payload(fact).field("idempotency_key"@) is None,
{
    reveal_strlit("tool");
    reveal_strlit("query");
    reveal_strlit("results");
    reveal_strlit("content");
    reveal_strlit("idempotency_key");
    assert("tool"@.len() == 4 && "query"@.len() == 5 && "results"@.len() == 7 && "content"@.len()
        == 7 && "idempotency_key"@.len() == 15);
    reveal_with_fuel(lookup, 4);
    let a = search_payload(query, results)->Object_0;
    assert(a.drop_first()[0] == a[1]);
    assert(a.drop_first().drop_first()[0] == a[2]);
    let b = remember_payload(fact)->Object_0;
    assert(b.drop_first()[0] == b[1]);
}

/// A running loop and its journal tell the same: the transcript, how many outside calls were made,
/// and what came of them.
pub open spec fn in_step(s: LoopView, steps: Seq<JsonView>) -> bool {
    &&& s.transcript == transcript_of(steps)
    &&& s.tool_seq == calls_in(steps)
    &&& forall|key: Seq<char>| #[trigger]
        recorded(executed_in(steps), key) == recorded(s.executed, key)
}

/// A loop and its journal stay in step: what is journaled is what joins the transcript, the count
/// of calls and the results, whatever was searched for, found, remembered or called.
pub proof fn law_journal_keeps_step(
    s: LoopView,
    event: EventView,
    steps: Seq<JsonView>,
    step: JsonView,
)
    requires
        sound(s),
        in_step(s, steps),
        expected(s.phase, event),
        !(s.phase is Journal),
        advanced(s, event).1 is Journal,
        advanced(s, event).1->event_type == "tool_call"@,
        text_field(step, "event_type"@) == "tool_call"@,
        payload_of(step) == advanced(s, event).1->payload,
    ensures
        in_step(
            advanced(advanced(s, event).0, EventView::Journaled).0,
            steps.push(step),
        ),
{
    let all = steps.push(step);
    assert(all.drop_last() =~= steps);
    let next = advanced(s, event).0;
    let done = advanced(next, EventView::Journaled).0;
    let key = call_key(s.run, s.tool_seq);
    reveal_strlit("tool_call");
    reveal_strlit("llm_answer");
    assert("tool_call"@[0] == 't' && "llm_answer"@[0] == 'l');
    match (s.phase, event) {
        (PhaseView::Search { query }, EventView::Found(results)) => {
            law_searches_are_replayed(query, results);
            lemma_other_fields(query, results, seq![]);
        },
        (PhaseView::Remember { fact }, EventView::Stored) => {
            law_facts_are_replayed(fact);
            lemma_other_fields(seq![], seq![], fact);
        },
        (PhaseView::Complete, EventView::Replied(reply)) => {
            let m = move_of(reply);
            let result = recorded(s.executed, key)->0;
            law_calls_are_replayed(m->server, m->tool, key, result);
            lemma_call_fields(m->server, m->tool, key, result);
            lemma_recorded_push(executed_in(steps), s.executed, key, result);
        },
        (PhaseView::Call { server, tool, key }, _) => {
            let result = next.executed.last().1;
            law_calls_are_replayed(server, tool, key, result);
            lemma_call_fields(server, tool, key, result);
            lemma_recorded_both(executed_in(steps), s.executed, key, result);
        },
        _ => {},
    }
}

/// Recording once more what is recorded changes nothing.
proof fn lemma_recorded_push(
    a: Seq<(Seq<char>, JsonView)>,
    b: Seq<(Seq<char>, JsonView)>,
    key: Seq<char>,
    result: JsonView,
)
    requires
        forall|k: Seq<char>| #[trigger] recorded(a, k) == recorded(b, k),
        recorded(b, key) == Some(result),
    ensures
        forall|k: Seq<char>| #[trigger] recorded(a.push((key, result)), k) == recorded(b, k),
{
    let c = a.push((key, result));
    assert(c.drop_last() =~= a);
    assert forall|k: Seq<char>| #[trigger] recorded(c, k) == recorded(b, k) by {
        assert(recorded(a, k) == recorded(b, k));
    }
}

proof fn lemma_recorded_both(
    a: Seq<(Seq<char>, JsonView)>,
    b: Seq<(Seq<char>, JsonView)>,
    key: Seq<char>,
    result: JsonView,
)
    requires
        forall|k: Seq<char>| #[trigger] recorded(a, k) == recorded(b, k),
    ensures
        forall|k: Seq<char>| #[trigger]
            recorded(a.push((key, result)), k) == recorded(b.push((key, result)), k),
{
    let c = a.push((key, result));
    let d = b.push((key, result));
    assert(c.drop_last() =~= a);
    assert(d.drop_last() =~= b);
    assert forall|k: Seq<char>| #[trigger] recorded(c, k) == recorded(d, k) by {
        assert(recorded(a, k) == recorded(b, k));
    }
}

/// A step that journals nothing leaves a loop and its journal in step.
pub proof fn law_silence_keeps_step(s: LoopView, event: EventView, steps: Seq<JsonView>)
    requires
        in_step(s, steps),
        expected(s.phase, event),
        !(s.phase is Journal),
        !(advanced(s, event).1 is Journal),
    ensures
        in_step(advanced(s, event).0, steps),
{
}

/// The key of the next outside call, and what is recorded under it, are the same for a running loop
/// and for one that is taken up again from the journal: a call that was cut off before its result
/// was journaled is made again under the same key.
pub proof fn law_keys_are_stable(s: LoopView, steps: Seq<JsonView>, max_turns: nat)
    requires
        in_step(s, steps),
    ensures
        ({
            let again = started(s.run, transcript_of(steps), steps, max_turns);
            &&& again.transcript == s.transcript
            &&& call_key(again.run, again.tool_seq) == call_key(s.run, s.tool_seq)
            &&& recorded(again.executed, call_key(again.run, again.tool_seq)) == recorded(
                s.executed,
                call_key(s.run, s.tool_seq),
            )
            &&& in_step(again, steps)
        }),
{
}

} // verus!
