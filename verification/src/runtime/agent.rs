//! The agent loop: turns of a model and its tools until it answers.
//!
//! What the model replies, what is journaled of it, and how a transcript is rebuilt from the journal,
//! so that a run that was interrupted can be taken up again.

use vstd::prelude::*;

use crate::json::{compact, parsed, Json, JsonView};
use crate::text;
use crate::text::{begins, behind, find, first_word, joined, trimmed, views};

verus! {

broadcast use vstd::string::group_string_axioms;

// ── What a reply asks for ────────────────────────────────────────────────────────────

pub enum MoveView {
    Search { query: Seq<char> },
    Remember { fact: Seq<char> },
    Call { server: Seq<char>, tool: Seq<char>, args: JsonView },
    Approve { prompt: Seq<char> },
    Answer { text: Seq<char> },
}

/// A call: `<server> <tool>: {json args}`. Arguments that are missing or not JSON count as none.
pub open spec fn call_move(rest: Seq<char>) -> MoveView {
    let k = find(rest, ':');
    let head = rest.take(k);
    let args = if k < rest.len() {
        trimmed(rest.skip(k + 1))
    } else {
        "{}"@
    };
    MoveView::Call {
        server: first_word(head),
        tool: first_word(text::after_first_word(head)),
        args: match parsed(args) {
            Some(j) => j,
            None => JsonView::Object(seq![]),
        },
    }
}

/// What a reply of the model asks for. A reply that names no tool is the answer.
pub open spec fn move_of(reply: Seq<char>) -> MoveView {
    let t = trimmed(reply);
    if behind(t, "TOOL search:"@) is Some {
        MoveView::Search { query: trimmed(behind(t, "TOOL search:"@)->0) }
    } else if behind(t, "TOOL remember:"@) is Some {
        MoveView::Remember { fact: trimmed(behind(t, "TOOL remember:"@)->0) }
    } else if behind(t, "TOOL call "@) is Some {
        call_move(behind(t, "TOOL call "@)->0)
    } else if behind(t, "TOOL approve:"@) is Some {
        MoveView::Approve { prompt: trimmed(behind(t, "TOOL approve:"@)->0) }
    } else {
        MoveView::Answer { text: t }
    }
}

/// What a reply asks for.
pub enum Move {
    Search { query: String },
    Remember { fact: String },
    Call { server: String, tool: String, args: Json },
    Approve { prompt: String },
    Answer { text: String },
}

impl View for Move {
    type V = MoveView;

    open spec fn view(&self) -> MoveView {
        match *self {
            Move::Search { query } => MoveView::Search { query: query@ },
            Move::Remember { fact } => MoveView::Remember { fact: fact@ },
            Move::Call { server, tool, args } => MoveView::Call {
                server: server@,
                tool: tool@,
                args: args@,
            },
            Move::Approve { prompt } => MoveView::Approve { prompt: prompt@ },
            Move::Answer { text } => MoveView::Answer { text: text@ },
        }
    }
}

fn read_call(rest: &[char]) -> (r: Move)
    ensures
        r@ == call_move(rest@),
{
    let k = text::find_char(rest, ':');
    proof {
        assert(rest@.subrange(0, k as int) =~= rest@.take(k as int));
    }
    let (server, more) = text::split_word(&rest[0..k]);
    let (tool, _) = text::split_word(more);
    let args_text = if k < rest.len() {
        proof {
            assert(rest@.subrange(k + 1, rest@.len() as int) =~= rest@.skip(k + 1));
        }
        text::string(text::trim(&rest[k + 1..rest.len()]))
    } else {
        "{}".to_owned()
    };
    let args = match crate::json::parse(args_text.as_str()) {
        Some(j) => j,
        None => {
            let none: Vec<(String, Json)> = Vec::new();
            proof {
                assert(crate::json::field_views(none@) =~= seq![]);
            }
            crate::json::object(none)
        },
    };
    Move::Call { server: text::string(server), tool: text::string(tool), args }
}

/// Reads a reply of the model.
pub fn read_reply(reply: &str) -> (r: Move)
    ensures
        r@ == move_of(reply@),
{
    let cs = text::chars(reply);
    let t = text::trim(&cs);
    if let Some(q) = text::strip_prefix(t, "TOOL search:") {
        Move::Search { query: text::string(text::trim(q)) }
    } else if let Some(fact) = text::strip_prefix(t, "TOOL remember:") {
        Move::Remember { fact: text::string(text::trim(fact)) }
    } else if let Some(rest) = text::strip_prefix(t, "TOOL call ") {
        read_call(rest)
    } else if let Some(prompt) = text::strip_prefix(t, "TOOL approve:") {
        Move::Approve { prompt: text::string(text::trim(prompt)) }
    } else {
        Move::Answer { text: text::string(t) }
    }
}

// ── The transcript and the journal ───────────────────────────────────────────────────

pub open spec fn question_line(question: Seq<char>) -> Seq<char> {
    "Question: "@ + question + "\n"@
}

pub open spec fn search_line(query: Seq<char>, results: Seq<Seq<char>>) -> Seq<char> {
    "Assistant: TOOL search: "@ + query + "\nObservation: "@ + joined(results, " | "@) + "\n"@
}

pub open spec fn remember_line(fact: Seq<char>) -> Seq<char> {
    "Assistant: TOOL remember: "@ + fact + "\nObservation: stored\n"@
}

pub open spec fn call_line(server: Seq<char>, tool: Seq<char>, result: Seq<char>) -> Seq<char> {
    "Assistant: TOOL call "@ + server + " "@ + tool + "\nObservation: "@ + result + "\n"@
}

pub open spec fn approval_line(prompt: Seq<char>) -> Seq<char> {
    "Assistant: requested approval for: "@ + prompt + "\nObservation: approved\n"@
}

pub open spec fn search_payload(query: Seq<char>, results: Seq<Seq<char>>) -> JsonView {
    JsonView::Object(
        seq![
            ("tool"@, JsonView::Str("search"@)),
            ("query"@, JsonView::Str(query)),
            ("results"@, JsonView::Array(crate::json::string_views(results))),
        ],
    )
}

pub open spec fn remember_payload(fact: Seq<char>) -> JsonView {
    JsonView::Object(
        seq![("tool"@, JsonView::Str("remember"@)), ("content"@, JsonView::Str(fact))],
    )
}

pub open spec fn call_payload(
    server: Seq<char>,
    tool: Seq<char>,
    key: Seq<char>,
    result: JsonView,
) -> JsonView {
    JsonView::Object(
        seq![
            ("tool"@, JsonView::Str(server + "/"@ + tool)),
            ("server"@, JsonView::Str(server)),
            ("idempotency_key"@, JsonView::Str(key)),
            ("result"@, result),
        ],
    )
}

pub open spec fn answer_payload(answer: Seq<char>) -> JsonView {
    JsonView::Object(seq![("answer"@, JsonView::Str(answer))])
}

/// A string field, empty where there is none.
pub open spec fn text_field(p: JsonView, key: Seq<char>) -> Seq<char> {
    match p.field(key) {
        Some(JsonView::Str(s)) => s,
        _ => seq![],
    }
}

/// The strings among the elements of an array.
pub open spec fn strings_in(v: Seq<JsonView>) -> Seq<Seq<char>>
    decreases v.len(),
{
    if v.len() == 0 {
        seq![]
    } else {
        match v.last() {
            JsonView::Str(s) => strings_in(v.drop_last()).push(s),
            _ => strings_in(v.drop_last()),
        }
    }
}

pub open spec fn string_list(p: JsonView, key: Seq<char>) -> Seq<Seq<char>> {
    match p.field(key) {
        Some(JsonView::Array(v)) => strings_in(v),
        _ => seq![],
    }
}

/// Where the name of the server ends in the name of a called tool: behind the server that the
/// journal names, or at the first slash where it names none.
pub open spec fn server_end(p: JsonView, tool: Seq<char>) -> int {
    match p.field("server"@) {
        Some(JsonView::Str(server)) => if begins(tool, server + "/"@) {
            server.len() as int
        } else {
            find(tool, '/')
        },
        _ => find(tool, '/'),
    }
}

/// The transcript line of a journaled tool call.
pub open spec fn tool_line(p: JsonView) -> Seq<char> {
    let tool = text_field(p, "tool"@);
    if tool == "search"@ {
        search_line(text_field(p, "query"@), string_list(p, "results"@))
    } else if tool == "remember"@ {
        remember_line(text_field(p, "content"@))
    } else {
        let k = server_end(p, tool);
        let result = match p.field("result"@) {
            Some(v) => compact(v),
            None => seq![],
        };
        call_line(
            tool.take(k),
            if k < tool.len() {
                tool.skip(k + 1)
            } else {
                seq![]
            },
            result,
        )
    }
}

/// The transcript line of a journaled step.
pub open spec fn step_line(event_type: Seq<char>, p: JsonView) -> Seq<char> {
    if event_type == "run_start"@ {
        question_line(text_field(p, "question"@))
    } else if event_type == "tool_call"@ {
        tool_line(p)
    } else if event_type == "hitl_request"@ {
        approval_line(text_field(p, "prompt"@))
    } else {
        seq![]
    }
}

/// The payload of a journaled step.
pub open spec fn payload_of(step: JsonView) -> JsonView {
    match step.field("payload"@) {
        Some(p) => p,
        None => JsonView::Null,
    }
}

/// Is a journaled step a call of an outside tool?
pub open spec fn is_call(step: JsonView) -> bool {
    let tool = text_field(payload_of(step), "tool"@);
    text_field(step, "event_type"@) == "tool_call"@ && tool != "search"@ && tool != "remember"@
}

/// The number of outside calls in a journal.
pub open spec fn calls_in(steps: Seq<JsonView>) -> nat
    decreases steps.len(),
{
    if steps.len() == 0 {
        0
    } else {
        calls_in(steps.drop_last()) + if is_call(steps.last()) {
            1nat
        } else {
            0nat
        }
    }
}

/// The transcript of journaled steps.
pub open spec fn transcript_of(steps: Seq<JsonView>) -> Seq<char>
    decreases steps.len(),
{
    if steps.len() == 0 {
        seq![]
    } else {
        transcript_of(steps.drop_last()) + step_line(
            text_field(steps.last(), "event_type"@),
            payload_of(steps.last()),
        )
    }
}

pub open spec fn json_views(v: Seq<Json>) -> Seq<JsonView> {
    v.map_values(|j: Json| j@)
}

fn field_text(p: &Json, key: &str) -> (r: String)
    ensures
        r@ == text_field(p@, key@),
{
    match p.get(key) {
        Some(Json::Str(s)) => s.clone(),
        _ => {
            let none = String::new();
            proof {
                assert(none@ =~= seq![]);
            }
            none
        },
    }
}

fn field_strings(p: &Json, key: &str) -> (r: Vec<String>)
    ensures
        views(r@) == string_list(p@, key@),
{
    let mut out: Vec<String> = Vec::new();
    proof {
        assert(views(out@) =~= seq![]);
    }
    let field = p.get(key);
    if let Some(j) = field {
        if let Json::Array(v) = j {
            let ghost all = j@->Array_0;
            let mut i: usize = 0;
            proof {
                assert(all.take(0) =~= seq![]);
            }
            while i < v.len()
                invariant
                    i <= v.len(),
                    *j == Json::Array(*v),
                    all == j@->Array_0,
                    views(out@) == strings_in(all.take(i as int)),
                decreases v.len() - i,
            {
                proof {
                    assert(all[i as int] == v@[i as int]@);
                    assert(all.take(i + 1).drop_last() =~= all.take(i as int));
                    assert(all.take(i + 1).last() == all[i as int]);
                }
                if let Json::Str(s) = &v[i] {
                    let ghost before = out@;
                    out.push(s.clone());
                    proof {
                        assert(views(out@) =~= views(before).push(s@));
                    }
                }
                i += 1;
            }
            proof {
                assert(all.take(all.len() as int) =~= all);
            }
        }
    }
    out
}

pub(crate) fn write_search(query: &str, results: &Vec<String>) -> (r: String)
    ensures
        r@ == search_line(query@, views(results@)),
{
    text::cat5(
        "Assistant: TOOL search: ",
        query,
        "\nObservation: ",
        text::join(results, " | ").as_str(),
        "\n",
    )
}

pub(crate) fn write_remember(fact: &str) -> (r: String)
    ensures
        r@ == remember_line(fact@),
{
    text::cat3("Assistant: TOOL remember: ", fact, "\nObservation: stored\n")
}

pub(crate) fn write_call(server: &str, tool: &str, result: &str) -> (r: String)
    ensures
        r@ == call_line(server@, tool@, result@),
{
    let mut out = text::cat5("Assistant: TOOL call ", server, " ", tool, "\nObservation: ");
    out.append(result);
    out.append("\n");
    out
}

fn find_server_end(p: &Json, tool: &[char]) -> (r: usize)
    ensures
        r == server_end(p@, tool@),
        r <= tool@.len(),
{
    if let Some(Json::Str(server)) = p.get("server") {
        let name = text::chars(text::cat(server.as_str(), "/").as_str());
        proof {
            reveal_strlit("/");
        }
        if text::starts(tool, &name) {
            return name.len() - 1;
        }
    }
    proof {
        text::lemma_find(tool@, '/');
    }
    text::find_char(tool, '/')
}

fn tool_line_of(p: &Json) -> (r: String)
    ensures
        r@ == tool_line(p@),
{
    let tool = field_text(p, "tool");
    if text::same(tool.as_str(), "search") {
        write_search(field_text(p, "query").as_str(), &field_strings(p, "results"))
    } else if text::same(tool.as_str(), "remember") {
        write_remember(field_text(p, "content").as_str())
    } else {
        let cs = text::chars(tool.as_str());
        let k: usize = find_server_end(p, &cs);
        proof {
            assert(cs@.subrange(0, k as int) =~= cs@.take(k as int));
        }
        let server = text::string(&cs[0..k]);
        let name = if k < cs.len() {
            proof {
                assert(cs@.subrange(k + 1, cs@.len() as int) =~= cs@.skip(k + 1));
            }
            text::string(&cs[k + 1..cs.len()])
        } else {
            String::new()
        };
        let result = match p.get("result") {
            Some(v) => v.to_text(),
            None => String::new(),
        };
        proof {
            assert(Seq::<char>::empty() =~= seq![]);
        }
        write_call(server.as_str(), name.as_str(), result.as_str())
    }
}

fn step_line_of(event_type: &str, p: &Json) -> (r: String)
    ensures
        r@ == step_line(event_type@, p@),
{
    if text::same(event_type, "run_start") {
        text::cat3("Question: ", field_text(p, "question").as_str(), "\n")
    } else if text::same(event_type, "tool_call") {
        tool_line_of(p)
    } else if text::same(event_type, "hitl_request") {
        text::cat3(
            "Assistant: requested approval for: ",
            field_text(p, "prompt").as_str(),
            "\nObservation: approved\n",
        )
    } else {
        let none = String::new();
        proof {
            assert(none@ =~= seq![]);
        }
        none
    }
}

fn step_is_call(step: &Json) -> (r: bool)
    ensures
        r == is_call(step@),
{
    let event_type = field_text(step, "event_type");
    let tool = match step.get("payload") {
        Some(p) => field_text(p, "tool"),
        None => field_text(&Json::Null, "tool"),
    };
    text::same(event_type.as_str(), "tool_call") && !text::same(tool.as_str(), "search")
        && !text::same(tool.as_str(), "remember")
}

/// Counts the outside calls in a journal.
pub fn count_calls(steps: &Vec<Json>) -> (r: usize)
    ensures
        r == calls_in(json_views(steps@)),
{
    let ghost all = json_views(steps@);
    let mut n: usize = 0;
    let mut i: usize = 0;
    proof {
        assert(all.take(0) =~= seq![]);
    }
    while i < steps.len()
        invariant
            i <= steps.len(),
            n <= i,
            all == json_views(steps@),
            n == calls_in(all.take(i as int)),
        decreases steps.len() - i,
    {
        proof {
            assert(all.take(i + 1).drop_last() =~= all.take(i as int));
            assert(all.take(i + 1).last() == steps@[i as int]@);
        }
        if step_is_call(&steps[i]) {
            n += 1;
        }
        i += 1;
    }
    proof {
        assert(all.take(all.len() as int) =~= all);
    }
    n
}

/// Rebuilds the transcript of a run from its journaled steps.
pub fn rebuild_agent_transcript(steps: &Vec<Json>) -> (r: String)
    ensures
        r@ == transcript_of(json_views(steps@)),
{
    let ghost all = json_views(steps@);
    let mut out = String::new();
    let mut i: usize = 0;
    proof {
        assert(all.take(0) =~= seq![]);
        assert(out@ =~= seq![]);
    }
    while i < steps.len()
        invariant
            i <= steps.len(),
            all == json_views(steps@),
            out@ == transcript_of(all.take(i as int)),
        decreases steps.len() - i,
    {
        let step = &steps[i];
        let event_type = field_text(step, "event_type");
        proof {
            assert(all.take(i + 1).drop_last() =~= all.take(i as int));
            assert(all.take(i + 1).last() == step@);
        }
        let line = match step.get("payload") {
            Some(p) => step_line_of(event_type.as_str(), p),
            None => step_line_of(event_type.as_str(), &Json::Null),
        };
        out.append(line.as_str());
        i += 1;
    }
    proof {
        assert(all.take(all.len() as int) =~= all);
    }
    out
}

} // verus!
