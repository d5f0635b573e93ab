//! Sessions: from what happened to what is remembered.

use vstd::prelude::*;

use crate::engine::extract::{fact_views, Fact, FactView};
use crate::error::{Error, ErrorView};
use crate::json;
use crate::json::{Json, JsonView};
use crate::memory::cognition::{
    copy_opt, input_views, new_input, InputView, MemoryInput, MemoryScope, ScopeView,
};
use crate::text;
use crate::text::{first_chars, opt_view};

verus! {

broadcast use vstd::string::group_string_axioms;

/// How many events of a session are read.
pub const DIGEST_EVENTS: usize = 200;

/// How much of a payload is read.
pub const DIGEST_CHARS: usize = 300;

pub open spec fn text_or(v: Option<JsonView>, otherwise: Seq<char>) -> Seq<char> {
    match v {
        Some(JsonView::Str(s)) => s,
        _ => otherwise,
    }
}

/// The line of an event: where it comes from, what it is, and the start of its payload.
pub open spec fn digest_line(e: JsonView) -> Seq<char> {
    let payload = match json::opt_field(Some(e), "payload"@) {
        Some(p) => json::compact(p),
        None => ""@,
    };
    "- ["@ + text_or(json::opt_field(Some(e), "source"@), ""@) + "] "@ + text_or(
        json::opt_field(Some(e), "event_type"@),
        "event"@,
    ) + ": "@ + first_chars(payload, DIGEST_CHARS as nat) + "\n"@
}

pub open spec fn digest_lines(events: Seq<JsonView>) -> Seq<char>
    decreases events.len(),
{
    if events.len() == 0 {
        seq![]
    } else {
        digest_lines(events.drop_last()) + digest_line(events.last())
    }
}

/// The digest of a session: its events, one line each.
pub open spec fn digest(session: Seq<char>, events: Seq<JsonView>) -> Seq<char> {
    let read = if events.len() > DIGEST_EVENTS {
        events.take(DIGEST_EVENTS as int)
    } else {
        events
    };
    "Session "@ + session + " summary. Events:\n"@ + digest_lines(read)
}

pub open spec fn json_views(v: Seq<Json>) -> Seq<JsonView> {
    v.map_values(|j: Json| j@)
}

fn string_or(v: Option<&Json>, otherwise: &str) -> (r: String)
    ensures
        r@ == text_or(json::opt_tree(v), otherwise@),
{
    match v {
        Some(Json::Str(s)) => s.clone(),
        _ => otherwise.to_owned(),
    }
}

fn write_line(e: &Json) -> (r: String)
    ensures
        r@ == digest_line(e@),
{
    let payload = match e.get("payload") {
        Some(p) => p.to_text(),
        None => "".to_owned(),
    };
    let cs = text::chars(payload.as_str());
    let start = text::string(text::take_chars(&cs, DIGEST_CHARS));
    let head = text::cat4(
        "- [",
        string_or(e.get("source"), "").as_str(),
        "] ",
        string_or(e.get("event_type"), "event").as_str(),
    );
    text::cat4(head.as_str(), ": ", start.as_str(), "\n")
}

/// Writes the digest of a session.
pub fn session_digest(session_id: &str, events: &Vec<Json>) -> (r: String)
    ensures
        r@ == digest(session_id@, json_views(events@)),
{
    let ghost all = json_views(events@);
    let mut out = text::cat3("Session ", session_id, " summary. Events:\n");
    let ghost head = out@;
    let mut i: usize = 0;
    proof {
        assert(all.take(0) =~= seq![]);
        assert(out@ =~= head + digest_lines(all.take(0)));
    }
    while i < events.len() && i < DIGEST_EVENTS
        invariant
            i <= events.len(),
            i <= DIGEST_EVENTS,
            all == json_views(events@),
            out@ == head + digest_lines(all.take(i as int)),
        decreases events.len() - i,
    {
        proof {
            assert(all.take(i + 1).drop_last() =~= all.take(i as int));
            assert(all.take(i + 1).last() == events@[i as int]@);
        }
        let line = write_line(&events[i]);
        let ghost before = out@;
        out.append(line.as_str());
        i += 1;
        proof {
            assert(out@ =~= head + (digest_lines(all.take(i - 1)) + line@));
        }
    }
    proof {
        if all.len() <= DIGEST_EVENTS {
            assert(all.take(i as int) =~= all);
        }
    }
    out
}

/// The facts of a session as memories: of the session, and of what happened in it.
pub open spec fn distilled(scope: ScopeView, session: Seq<char>, facts: Seq<FactView>) -> Seq<
    InputView,
> {
    facts.map_values(
        |f: FactView|
            InputView {
                subject: f.0,
                mem_type: Some("episodic"@),
                ..new_input(ScopeView { session_id: Some(session), ..scope }, f.1)
            },
    )
}

/// The memories that the facts of a session become.
pub fn session_distill_plan(scope: &MemoryScope, session_id: &str, facts: &Vec<Fact>) -> (r: Vec<
    MemoryInput,
>)
    ensures
        input_views(r@) == distilled(scope@, session_id@, fact_views(facts@)),
{
    let ghost all = distilled(scope@, session_id@, fact_views(facts@));
    let mut out: Vec<MemoryInput> = Vec::new();
    let mut i: usize = 0;
    proof {
        assert(input_views(out@) =~= all.take(0));
    }
    while i < facts.len()
        invariant
            i <= facts.len(),
            all == distilled(scope@, session_id@, fact_views(facts@)),
            input_views(out@) == all.take(i as int),
        decreases facts.len() - i,
    {
        let ghost before = out@;
        let mut own = scope.copy();
        own.session_id = Some(session_id.to_owned());
        let mut input = MemoryInput::new(own, facts[i].1.clone());
        input.subject = copy_opt(&facts[i].0);
        input.mem_type = Some("episodic".to_owned());
        proof {
            assert(fact_views(facts@)[i as int] == (
                opt_view(facts@[i as int].0),
                facts@[i as int].1@,
            ));
            assert(input@ == all[i as int]);
        }
        out.push(input);
        i += 1;
        proof {
            assert(input_views(out@) =~= input_views(before).push(all[i - 1]));
            assert(all.take(i as int) =~= all.take(i - 1).push(all[i - 1]));
        }
    }
    proof {
        assert(all.take(all.len() as int) =~= all);
    }
    out
}

/// The vector of a single text: the first that the provider gave. `None` stands for no provider.
pub fn embed_text(reply: Option<Vec<Vec<u32>>>) -> (r: Result<Vec<u32>, Error>)
    ensures
        match (r, reply) {
            (Ok(v), Some(vs)) => vs@.len() > 0 && v@ == vs@[0]@,
            (Err(e), Some(vs)) => vs@.len() == 0 && e@ == ErrorView::Embedding(
                "embedding returned empty result"@,
            ),
            (Err(e), None) => e@ == ErrorView::Embedding("no embedding provider configured"@),
            _ => false,
        },
{
    match reply {
        Some(vs) => if vs.len() > 0 {
            Ok(crate::memory::cognition::copy_bits(&vs[0]))
        } else {
            Err(Error::Embedding("embedding returned empty result".to_owned()))
        },
        None => Err(Error::Embedding("no embedding provider configured".to_owned())),
    }
}

} // verus!
