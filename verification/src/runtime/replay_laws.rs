//! What a resumed run is shown, and what a reply of the model sets off.

use vstd::prelude::*;

use crate::json::{compact, lemma_with_field, lookup, parsed, JsonView};
use crate::runtime::agent::{
    answer_payload, call_payload, move_of, payload_of, remember_payload, search_payload,
    strings_in, text_field, transcript_of, MoveView,
};
use crate::runtime::agent_laws::{
    law_calls_are_replayed, law_facts_are_replayed, law_searches_are_replayed,
};
use crate::runtime::agent_loop::{
    advanced, call_error, call_key, closing, executed_in, keyed, recorded, started, ActionView,
    EventView, LoopView, PhaseView,
};
use crate::runtime::types::RunStatus;
use crate::text::{begins, behind, find, joined, trimmed};

verus! {

// ── The transcript ───────────────────────────────────────────────────────────────────

/// A journal is replayed step by step: what comes later adds to the transcript of what came before.
pub proof fn law_transcripts_only_grow(steps: Seq<JsonView>, step: JsonView)
    ensures
        transcript_of(steps).is_prefix_of(transcript_of(steps.push(step))),
        transcript_of(seq![]) == Seq::<char>::empty(),
{
    assert(steps.push(step).drop_last() =~= steps);
}

/// The names of the steps that are replayed differ.
proof fn lemma_step_names()
    ensures
        "run_start"@ != "tool_call"@,
        "run_start"@ != "hitl_request"@,
        "tool_call"@ != "hitl_request"@,
{
    reveal_strlit("run_start");
    reveal_strlit("tool_call");
    reveal_strlit("hitl_request");
    assert("run_start"@[0] == 'r' && "tool_call"@[0] == 't' && "hitl_request"@[0] == 'h');
}

/// A resumed run sees that it asked for approval, and that it was given: a step that paused for a
/// prompt adds the line that says so.
pub proof fn law_approvals_are_replayed(steps: Seq<JsonView>, step: JsonView, prompt: Seq<char>)
    requires
        step.field("event_type"@) == Some(JsonView::Str("hitl_request"@)),
        payload_of(step).field("prompt"@) == Some(JsonView::Str(prompt)),
    ensures
        transcript_of(steps.push(step)) == transcript_of(steps)
            + "Assistant: requested approval for: "@ + prompt + "\nObservation: approved\n"@,
{
    assert(steps.push(step).drop_last() =~= steps);
    lemma_step_names();
    assert(transcript_of(steps.push(step)) =~= transcript_of(steps)
        + "Assistant: requested approval for: "@ + prompt + "\nObservation: approved\n"@);
}

/// A resumed run sees its question.
pub proof fn law_questions_are_replayed(steps: Seq<JsonView>, step: JsonView, question: Seq<char>)
    requires
        step.field("event_type"@) == Some(JsonView::Str("run_start"@)),
        payload_of(step).field("question"@) == Some(JsonView::Str(question)),
    ensures
        transcript_of(steps.push(step)) == transcript_of(steps) + "Question: "@ + question + "\n"@,
{
    assert(steps.push(step).drop_last() =~= steps);
    lemma_step_names();
    assert(transcript_of(steps.push(step)) =~= transcript_of(steps) + "Question: "@ + question
        + "\n"@);
}

/// A resumed run sees what it searched for and what was found, in the order of the results.
pub proof fn law_searches_are_shown(
    steps: Seq<JsonView>,
    step: JsonView,
    query: Seq<char>,
    results: Seq<Seq<char>>,
)
    requires
        step.field("event_type"@) == Some(JsonView::Str("tool_call"@)),
        payload_of(step) == search_payload(query, results),
    ensures
        transcript_of(steps.push(step)) == transcript_of(steps) + "Assistant: TOOL search: "@
            + query + "\nObservation: "@ + joined(results, " | "@) + "\n"@,
{
    assert(steps.push(step).drop_last() =~= steps);
    law_searches_are_replayed(query, results);
    assert(transcript_of(steps.push(step)) =~= transcript_of(steps)
        + "Assistant: TOOL search: "@ + query + "\nObservation: "@ + joined(results, " | "@)
        + "\n"@);
}

/// A resumed run sees what it remembered, and that it was stored.
pub proof fn law_facts_are_shown(steps: Seq<JsonView>, step: JsonView, fact: Seq<char>)
    requires
        step.field("event_type"@) == Some(JsonView::Str("tool_call"@)),
        payload_of(step) == remember_payload(fact),
    ensures
        transcript_of(steps.push(step)) == transcript_of(steps) + "Assistant: TOOL remember: "@
            + fact + "\nObservation: stored\n"@,
{
    assert(steps.push(step).drop_last() =~= steps);
    law_facts_are_replayed(fact);
    assert(transcript_of(steps.push(step)) =~= transcript_of(steps)
        + "Assistant: TOOL remember: "@ + fact + "\nObservation: stored\n"@);
}

/// A resumed run sees which outside tool it called, and the result that came back.
pub proof fn law_calls_are_shown(
    steps: Seq<JsonView>,
    step: JsonView,
    server: Seq<char>,
    tool: Seq<char>,
    key: Seq<char>,
    result: JsonView,
)
    requires
        step.field("event_type"@) == Some(JsonView::Str("tool_call"@)),
        payload_of(step) == call_payload(server, tool, key, result),
    ensures
        transcript_of(steps.push(step)) == transcript_of(steps) + "Assistant: TOOL call "@ + server
            + " "@ + tool + "\nObservation: "@ + compact(result) + "\n"@,
{
    assert(steps.push(step).drop_last() =~= steps);
    law_calls_are_replayed(server, tool, key, result);
    assert(transcript_of(steps.push(step)) =~= transcript_of(steps) + "Assistant: TOOL call "@
        + server + " "@ + tool + "\nObservation: "@ + compact(result) + "\n"@);
}

/// A call of a journal that names no server is shown all the same: the server is what stands before
/// the first slash, the tool what stands behind it.
pub proof fn law_calls_without_a_server_are_shown(
    steps: Seq<JsonView>,
    step: JsonView,
    server: Seq<char>,
    tool: Seq<char>,
    result: JsonView,
)
    requires
        step.field("event_type"@) == Some(JsonView::Str("tool_call"@)),
        payload_of(step).field("tool"@) == Some(JsonView::Str(server + "/"@ + tool)),
        payload_of(step).field("server"@) is None,
        payload_of(step).field("result"@) == Some(result),
        !server.contains('/'),
    ensures
        transcript_of(steps.push(step)) == transcript_of(steps) + "Assistant: TOOL call "@ + server
            + " "@ + tool + "\nObservation: "@ + compact(result) + "\n"@,
{
    reveal_strlit("/");
    reveal_strlit("search");
    reveal_strlit("remember");
    lemma_step_names();
    assert(steps.push(step).drop_last() =~= steps);
    let whole = server + "/"@ + tool;
    let k = server.len() as int;
    assert(whole[k] == '/');
    assert(whole != "search"@) by {
        assert(forall|j: int| 0 <= j < "search"@.len() ==> "search"@[j] != '/');
    }
    assert(whole != "remember"@) by {
        assert(forall|j: int| 0 <= j < "remember"@.len() ==> "remember"@[j] != '/');
    }
    crate::text::lemma_find(whole, '/');
    assert(find(whole, '/') == k) by {
        if find(whole, '/') < k {
            assert(whole[find(whole, '/')] == server[find(whole, '/')]);
            assert(server.contains(server[find(whole, '/')]));
        }
    }
    assert(whole.take(k) =~= server);
    assert(whole.skip(k + 1) =~= tool);
    assert(transcript_of(steps.push(step)) =~= transcript_of(steps) + "Assistant: TOOL call "@
        + server + " "@ + tool + "\nObservation: "@ + compact(result) + "\n"@);
}

/// Of a list of results the strings are shown, all of them and in order; anything else is left out.
pub proof fn law_results_that_are_strings_are_shown(v: Seq<JsonView>, s: Seq<char>, other: JsonView)
    requires
        !(other is Str),
    ensures
        strings_in(v.push(JsonView::Str(s))) == strings_in(v).push(s),
        strings_in(v.push(other)) == strings_in(v),
        strings_in(seq![]) == Seq::<Seq<char>>::empty(),
{
    assert(v.push(JsonView::Str(s)).drop_last() =~= v);
    assert(v.push(other).drop_last() =~= v);
}

/// Every other step leaves the transcript as it is.
pub proof fn law_other_steps_are_not_shown(steps: Seq<JsonView>, step: JsonView)
    requires
        step.field("event_type"@) != Some(JsonView::Str("run_start"@)),
        step.field("event_type"@) != Some(JsonView::Str("tool_call"@)),
        step.field("event_type"@) != Some(JsonView::Str("hitl_request"@)),
    ensures
        transcript_of(steps.push(step)) == transcript_of(steps),
{
    assert(steps.push(step).drop_last() =~= steps);
    reveal_strlit("run_start");
    reveal_strlit("tool_call");
    reveal_strlit("hitl_request");
    assert("run_start"@.len() > 0 && "tool_call"@.len() > 0 && "hitl_request"@.len() > 0);
    assert(transcript_of(steps.push(step)) =~= transcript_of(steps));
}

// ── What is journaled ────────────────────────────────────────────────────────────────

/// What is journaled of a step says which tool was used, and with what.
pub proof fn law_journals_say_what_was_done(
    query: Seq<char>,
    results: Seq<Seq<char>>,
    fact: Seq<char>,
    answer: Seq<char>,
)
    ensures
        search_payload(query, results).field("tool"@) == Some(JsonView::Str("search"@)),
        search_payload(query, results).field("query"@) == Some(JsonView::Str(query)),
        search_payload(query, results).field("results"@) == Some(
            JsonView::Array(results.map_values(|s: Seq<char>| JsonView::Str(s))),
        ),
        remember_payload(fact).field("tool"@) == Some(JsonView::Str("remember"@)),
        remember_payload(fact).field("content"@) == Some(JsonView::Str(fact)),
        answer_payload(answer).field("answer"@) == Some(JsonView::Str(answer)),
{
    reveal_strlit("tool");
    reveal_strlit("query");
    reveal_strlit("results");
    reveal_strlit("content");
    assert("tool"@.len() == 4 && "query"@.len() == 5 && "results"@.len() == 7 && "content"@.len()
        == 7);
    reveal_with_fuel(lookup, 4);
    let a = search_payload(query, results)->Object_0;
    assert(a.drop_first()[0] == a[1]);
    assert(a.drop_first().drop_first()[0] == a[2]);
    let b = remember_payload(fact)->Object_0;
    assert(b.drop_first()[0] == b[1]);
    assert(crate::json::string_views(results) =~= results.map_values(
        |s: Seq<char>| JsonView::Str(s),
    ));
}

/// So it is for a call: the tool by its server, the key it was made under, and its result.
pub proof fn law_journaled_calls_say_what_was_called(
    server: Seq<char>,
    tool: Seq<char>,
    key: Seq<char>,
    result: JsonView,
)
    ensures
        ({
            let p = call_payload(server, tool, key, result);
            &&& p.field("tool"@) == Some(JsonView::Str(server + "/"@ + tool))
            &&& p.field("idempotency_key"@) == Some(JsonView::Str(key))
            &&& p.field("result"@) == Some(result)
        }),
{
    reveal_strlit("tool");
    reveal_strlit("server");
    reveal_strlit("idempotency_key");
    reveal_strlit("result");
    let fields = call_payload(server, tool, key, result)->Object_0;
    assert("tool"@.len() == 4 && "idempotency_key"@.len() == 15);
    assert("server"@[0] == 's' && "result"@[0] == 'r' && "server"@.len() == 6 && "result"@.len()
        == 6);
    reveal_with_fuel(lookup, 5);
    let rest = fields.drop_first();
    assert(rest[0] == fields[1]);
    assert(rest.drop_first()[0] == fields[2]);
    assert(rest.drop_first().drop_first()[0] == fields[3]);
}

// ── What a reply asks for ────────────────────────────────────────────────────────────

/// The ways in which a reply can begin that names a tool rule each other out.
proof fn lemma_tool_names(rest: Seq<char>)
    ensures
        ({
            let search = "TOOL search:"@ + rest;
            let remember = "TOOL remember:"@ + rest;
            let call = "TOOL call "@ + rest;
            let approve = "TOOL approve:"@ + rest;
            &&& behind(search, "TOOL search:"@) == Some(rest)
            &&& behind(remember, "TOOL remember:"@) == Some(rest)
            &&& behind(call, "TOOL call "@) == Some(rest)
            &&& behind(approve, "TOOL approve:"@) == Some(rest)
            &&& !begins(remember, "TOOL search:"@)
            &&& !begins(call, "TOOL search:"@) && !begins(call, "TOOL remember:"@)
            &&& !begins(approve, "TOOL search:"@) && !begins(approve, "TOOL remember:"@)
                && !begins(approve, "TOOL call "@)
        }),
{
    reveal_strlit("TOOL search:");
    reveal_strlit("TOOL remember:");
    reveal_strlit("TOOL call ");
    reveal_strlit("TOOL approve:");
    lemma_behind("TOOL search:"@, rest);
    lemma_behind("TOOL remember:"@, rest);
    lemma_behind("TOOL call "@, rest);
    lemma_behind("TOOL approve:"@, rest);
    let s = "TOOL search:"@;
    let r = "TOOL remember:"@;
    let c = "TOOL call "@;
    let a = "TOOL approve:"@;
    assert(s[5] == 's' && r[5] == 'r' && c[5] == 'c' && a[5] == 'a');
    lemma_begins_at(r + rest, s, 5);
    lemma_begins_at(c + rest, s, 5);
    lemma_begins_at(c + rest, r, 5);
    lemma_begins_at(a + rest, s, 5);
    lemma_begins_at(a + rest, r, 5);
    lemma_begins_at(a + rest, c, 5);
}

proof fn lemma_behind(prefix: Seq<char>, rest: Seq<char>)
    ensures
        behind(prefix + rest, prefix) == Some(rest),
{
    assert((prefix + rest).take(prefix.len() as int) =~= prefix);
    assert((prefix + rest).skip(prefix.len() as int) =~= rest);
}

proof fn lemma_begins_at(s: Seq<char>, p: Seq<char>, i: int)
    requires
        0 <= i < p.len(),
        i < s.len(),
        s[i] != p[i],
    ensures
        !begins(s, p),
{
    if begins(s, p) {
        assert(s.take(p.len() as int)[i] == p[i]);
    }
}

/// A reply that names a tool asks for it, with what stands behind the name; white space around
/// either does not count.
pub proof fn law_named_tools_are_asked_for(reply: Seq<char>, rest: Seq<char>)
    ensures
        trimmed(reply) == "TOOL search:"@ + rest ==> move_of(reply) == (MoveView::Search {
            query: trimmed(rest),
        }),
        trimmed(reply) == "TOOL remember:"@ + rest ==> move_of(reply) == (MoveView::Remember {
            fact: trimmed(rest),
        }),
        trimmed(reply) == "TOOL call "@ + rest ==> move_of(reply) is Call,
        trimmed(reply) == "TOOL approve:"@ + rest ==> move_of(reply) == (MoveView::Approve {
            prompt: trimmed(rest),
        }),
{
    lemma_tool_names(rest);
}

/// A reply that names no tool is the answer, word for word but for white space around it.
pub proof fn law_other_replies_answer(reply: Seq<char>)
    requires
        !begins(trimmed(reply), "TOOL search:"@),
        !begins(trimmed(reply), "TOOL remember:"@),
        !begins(trimmed(reply), "TOOL call "@),
        !begins(trimmed(reply), "TOOL approve:"@),
    ensures
        move_of(reply) == (MoveView::Answer { text: trimmed(reply) }),
{
}

/// A call is read up to its first colon, and its arguments behind it; arguments that cannot be read
/// are none.
pub proof fn law_calls_carry_their_arguments(reply: Seq<char>, head: Seq<char>, args: Seq<char>)
    requires
        trimmed(reply) == "TOOL call "@ + (head + ":"@ + args),
        !head.contains(':'),
    ensures
        move_of(reply) is Call,
        parsed(trimmed(args)) is Some ==> move_of(reply)->args == parsed(trimmed(args))->0,
        parsed(trimmed(args)) is None ==> move_of(reply)->args == JsonView::Object(seq![]),
{
    let rest = head + ":"@ + args;
    lemma_tool_names(rest);
    reveal_strlit(":");
    crate::text::lemma_find(rest, ':');
    let k = find(rest, ':');
    assert(rest[head.len() as int] == ':');
    assert(k == head.len()) by {
        if k < head.len() {
            assert(head.contains(head[k]));
        }
    }
    assert(rest.skip(k + 1) =~= args);
}

// ── What a reply sets off ────────────────────────────────────────────────────────────

/// The model is asked with the whole transcript, and only while the lease on the run is held.
pub proof fn law_the_model_sees_the_transcript(s: LoopView)
    requires
        s.phase is Claim,
    ensures
        advanced(s, EventView::Claimed(true)).1 == (ActionView::Complete {
            transcript: s.transcript,
        }),
        advanced(s, EventView::Claimed(true)).0 == (LoopView { phase: PhaseView::Complete, ..s }),
{
}

/// What a reply asks for is done, and nothing else: a search for its query, a fact to remember, a
/// pause for its prompt, an answer that is journaled. Nothing of the run changes before it is done.
pub proof fn law_replies_are_acted_on(s: LoopView, reply: Seq<char>)
    requires
        s.phase is Complete,
    ensures
        ({
            let (next, action) = advanced(s, EventView::Replied(reply));
            &&& next.run == s.run && next.transcript == s.transcript && next.tool_seq == s.tool_seq
            &&& next.executed == s.executed && next.turns == s.turns
            &&& match move_of(reply) {
                MoveView::Search { query } => action == (ActionView::Search { query }),
                MoveView::Remember { fact } => action == (ActionView::Remember { fact }),
                MoveView::Approve { prompt } => action == (ActionView::Approve { prompt })
                    && next.phase is Done,
                MoveView::Answer { text } => {
                    &&& action == (ActionView::Journal {
                        event_type: "llm_answer"@,
                        payload: JsonView::Object(seq![("answer"@, JsonView::Str(text))]),
                    })
                    &&& advanced(next, EventView::Journaled).1 == (ActionView::Finish {
                        answer: Some(text),
                    })
                    &&& advanced(next, EventView::Journaled).0.phase is Done
                },
                MoveView::Call { server, tool, args } => {
                    let key = s.run + ":tool:"@ + crate::text::decimal_of(s.tool_seq);
                    match recorded(s.executed, key) {
                        Some(result) => action == (ActionView::Journal {
                            event_type: "tool_call"@,
                            payload: call_payload(server, tool, key, result),
                        }),
                        None => {
                            &&& action is CheckLeader
                            &&& advanced(next, EventView::Leading(true)).1 is CallTool
                            &&& advanced(next, EventView::Leading(true)).1->CallTool_server
                                == server
                            &&& advanced(next, EventView::Leading(true)).1->CallTool_tool == tool
                            &&& advanced(next, EventView::Leading(true)).1->CallTool_args == keyed(
                                args,
                                key,
                            )
                        },
                    }
                },
            }
        }),
{
}

/// What came of a tool is journaled as it came, and is in the transcript once it is: the results of
/// a search, a stored fact, the result of a call or the error it failed with.
pub proof fn law_observations_join_the_transcript(s: LoopView, event: EventView)
    requires
        s.phase is Search && event is Found || s.phase is Remember && event is Stored || s.phase
            is Call && (event is Returned || event is CallFailed || event is NoExecutor),
    ensures
        ({
            let (waiting, action) = advanced(s, event);
            let (next, after) = advanced(waiting, EventView::Journaled);
            let result = match event {
                EventView::Returned(r) => r,
                EventView::CallFailed(e) => JsonView::Object(seq![("error"@, JsonView::Str(e))]),
                _ => JsonView::Object(
                    seq![("error"@, JsonView::Str("no tool executor configured"@))],
                ),
            };
            &&& waiting.transcript == s.transcript && waiting.turns == s.turns
            &&& action is Journal && action->event_type == "tool_call"@
            &&& next.run == s.run && next.turns == s.turns - 1 || s.turns == 0
            &&& match s.phase {
                PhaseView::Search { query } => {
                    &&& action->payload == search_payload(query, event->Found_0)
                    &&& next.transcript == s.transcript + ("Assistant: TOOL search: "@ + query
                        + "\nObservation: "@ + joined(event->Found_0, " | "@) + "\n"@)
                    &&& next.tool_seq == s.tool_seq && next.executed == s.executed
                },
                PhaseView::Remember { fact } => {
                    &&& action->payload == remember_payload(fact)
                    &&& next.transcript == s.transcript + ("Assistant: TOOL remember: "@ + fact
                        + "\nObservation: stored\n"@)
                    &&& next.tool_seq == s.tool_seq && next.executed == s.executed
                },
                PhaseView::Call { server, tool, key } => {
                    &&& action->payload == call_payload(server, tool, key, result)
                    &&& next.transcript == s.transcript + ("Assistant: TOOL call "@ + server
                        + " "@ + tool + "\nObservation: "@ + compact(result) + "\n"@)
                    &&& next.tool_seq == s.tool_seq + 1
                    &&& next.executed == s.executed.push((key, result))
                },
                _ => true,
            }
            &&& s.turns > 1 ==> after is Claim && next.phase is Claim
            &&& s.turns == 1 ==> after == (ActionView::Finish { answer: None }) && next.phase is Done
        }),
{
}

/// A call takes its key with it, and loses none of its own arguments.
pub proof fn law_calls_take_their_key(
    fields: Seq<(Seq<char>, JsonView)>,
    key: Seq<char>,
    name: Seq<char>,
)
    ensures
        keyed(JsonView::Object(fields), key).field("_idempotency_key"@) == Some(JsonView::Str(key)),
        name != "_idempotency_key"@ ==> keyed(JsonView::Object(fields), key).field(name)
            == JsonView::Object(fields).field(name),
{
    lemma_with_field(fields, "_idempotency_key"@, JsonView::Str(key), name);
    lemma_with_field(fields, "_idempotency_key"@, JsonView::Str(key), "_idempotency_key"@);
}

/// Arguments that are no object go out as they are.
pub proof fn law_other_arguments_go_out_as_they_are(args: JsonView, key: Seq<char>)
    requires
        !(args is Object),
    ensures
        keyed(args, key) == args,
{
}

/// What a journal says came of a call is what a resumed run finds under the key of that call, and it
/// is the latest that counts. A step of another kind changes nothing of what is found.
pub proof fn law_journaled_results_are_found(
    steps: Seq<JsonView>,
    step: JsonView,
    key: Seq<char>,
    other: Seq<char>,
    result: JsonView,
)
    ensures
        payload_of(step).field("idempotency_key"@) == Some(JsonView::Str(key)) && payload_of(
            step,
        ).field("result"@) == Some(result) ==> recorded(executed_in(steps.push(step)), key) == Some(
            result,
        ),
        payload_of(step).field("idempotency_key"@) != Some(JsonView::Str(other)) || payload_of(
            step,
        ).field("result"@) is None ==> recorded(executed_in(steps.push(step)), other) == recorded(
            executed_in(steps),
            other,
        ),
        recorded(executed_in(seq![]), key) is None,
{
    assert(steps.push(step).drop_last() =~= steps);
    let before = executed_in(steps);
    match (payload_of(step).field("idempotency_key"@), payload_of(step).field("result"@)) {
        (Some(JsonView::Str(k)), Some(r)) => {
            assert(before.push((k, r)).drop_last() =~= before);
        },
        _ => {},
    }
}

/// A resumed run goes on counting its calls where the journal ends: one for each call that the
/// journal holds, and none for what it searched for or remembered.
pub proof fn law_calls_are_counted_on(
    run: Seq<char>,
    steps: Seq<JsonView>,
    step: JsonView,
    tool: Seq<char>,
    max_turns: nat,
)
    requires
        step.field("event_type"@) == Some(JsonView::Str("tool_call"@)),
        payload_of(step).field("tool"@) == Some(JsonView::Str(tool)),
    ensures
        ({
            let before = started(run, transcript_of(steps), steps, max_turns);
            let all = steps.push(step);
            let after = started(run, transcript_of(all), all, max_turns);
            &&& tool != "search"@ && tool != "remember"@ ==> after.tool_seq == before.tool_seq + 1
            &&& tool == "search"@ || tool == "remember"@ ==> after.tool_seq == before.tool_seq
            &&& after.run == run && after.transcript == transcript_of(all)
        }),
        started(run, transcript_of(seq![]), seq![], max_turns).tool_seq == 0,
{
    assert(steps.push(step).drop_last() =~= steps);
}

/// In a transcript that is not the journal's own every `TOOL call ` counts as a call, and nothing
/// else does.
pub proof fn law_calls_of_other_transcripts_are_counted(
    run: Seq<char>,
    steps: Seq<JsonView>,
    c: char,
    rest: Seq<char>,
    max_turns: nat,
)
    requires
        rest != transcript_of(steps),
    ensures
        "TOOL call "@ + rest != transcript_of(steps) ==> started(
            run,
            "TOOL call "@ + rest,
            steps,
            max_turns,
        ).tool_seq == 1 + started(run, rest, steps, max_turns).tool_seq,
        seq![c] + rest != transcript_of(steps) && !"TOOL call "@.is_prefix_of(seq![c] + rest)
            ==> started(run, seq![c] + rest, steps, max_turns).tool_seq == started(
            run,
            rest,
            steps,
            max_turns,
        ).tool_seq,
        rest.len() == 0 ==> started(run, rest, steps, max_turns).tool_seq == 0,
{
    reveal_strlit("TOOL call ");
    let part = "TOOL call "@;
    let n = part.len() as int;
    assert((part + rest).take(n) =~= part);
    assert((part + rest).skip(n) =~= rest);
    let longer = seq![c] + rest;
    assert(longer.drop_first() =~= rest);
    if begins(longer, part) {
        assert(part.is_prefix_of(longer));
    }
}

/// The keys of a run's calls differ: no call is taken for another.
pub proof fn law_calls_have_keys_of_their_own(run: Seq<char>, a: nat, b: nat)
    requires
        a != b,
    ensures
        call_key(run, a) != call_key(run, b),
{
    let ka = call_key(run, a);
    let kb = call_key(run, b);
    let head = run + ":tool:"@;
    if ka == kb {
        assert(ka.skip(head.len() as int) =~= crate::text::decimal_of(a));
        assert(kb.skip(head.len() as int) =~= crate::text::decimal_of(b));
        lemma_decimals_differ(a, b);
    }
}

/// The value of a row of digits.
spec fn value_of(s: Seq<char>) -> int
    decreases s.len(),
{
    if s.len() == 0 {
        0
    } else {
        value_of(s.drop_last()) * 10 + (s.last() as int - '0' as int)
    }
}

proof fn lemma_value_of_decimal(n: nat)
    ensures
        value_of(crate::text::decimal_of(n)) == n,
    decreases n,
{
    let s = crate::text::decimal_of(n);
    if n < 10 {
        assert(s.drop_last() =~= seq![]);
        assert(value_of(s.drop_last()) == 0);
    } else {
        lemma_value_of_decimal(n / 10);
        assert(s.drop_last() =~= crate::text::decimal_of(n / 10));
    }
}

proof fn lemma_decimals_differ(a: nat, b: nat)
    requires
        a != b,
    ensures
        crate::text::decimal_of(a) != crate::text::decimal_of(b),
{
    lemma_value_of_decimal(a);
    lemma_value_of_decimal(b);
}

/// A run that answered keeps its answer, and one that did not says that its turns ran out.
pub proof fn law_runs_end_with_what_came_of_them(answer: Option<Seq<char>>, now: i128)
    ensures
        ({
            let p = closing(answer, now);
            &&& p.ended_at == Some(now)
            &&& answer is Some ==> p.status == Some(RunStatus::Succeeded) && p.error is None
                && p.result is Some && p.result->0.field("answer"@) == Some(
                JsonView::Str(answer->0),
            )
            &&& answer is None ==> p.status == Some(RunStatus::Failed) && p.result is None
                && p.error == Some("max turns exceeded without a final answer"@)
        }),
{
}

} // verus!
