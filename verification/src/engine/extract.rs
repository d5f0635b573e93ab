//! Reading what a language model wrote: facts and triples, leniently.

use vstd::prelude::*;

use crate::engine::apply::{triple_views, Triple, TripleView};
use crate::json;
use crate::json::{Json, JsonView};
use crate::text;
use crate::text::{find, lines_of, lowered, opt_view, replaced, split_on, trimmed};

verus! {

broadcast use vstd::string::group_string_axioms;

/// What a model is told that is to take facts out of a text.
pub const EXTRACT_SYSTEM: &'static str =
    "You extract atomic, durable facts from the user's text for an agent memory store. Return ONLY a JSON array of objects with keys \"subject\" (a short stable key like \"favorite_color\", or null) and \"content\" (the fact as a standalone sentence). Extract only meaningful, lasting facts; ignore pleasantries. Example: [{\"subject\":\"favorite_color\",\"content\":\"Their favorite color is blue\"}]";

/// What a model is told that is to take relationships out of a text.
pub const TRIPLES_SYSTEM: &'static str =
    "Extract factual relationships from the text as lines of `subject | relation | object`. Output only those lines, nothing else.";

/// What a model is told that is to sum up memories.
pub const SUMMARY_SYSTEM: &'static str =
    "Summarize the following memories into a concise paragraph capturing the durable facts. Output only the summary.";

/// Is a model asked at all? Only where it is wanted, and there is one.
pub fn asks_model(extraction: &str, provider: bool) -> (r: bool)
    ensures
        r == (extraction@ == "llm"@ && provider),
{
    text::same(extraction, "llm") && provider
}

// ── Triples ──────────────────────────────────────────────────────────────────────────

/// The triple of a line `subject | relation | object`, if it is one. The relation is written in
/// lower case, with `_` for a blank.
pub open spec fn triple_of(line: Seq<char>) -> Option<TripleView> {
    let parts = split_on(line, '|');
    if parts.len() == 3 && trimmed(parts[0]).len() > 0 && trimmed(parts[2]).len() > 0 {
        Some(
            (
                trimmed(parts[0]),
                replaced(lowered(trimmed(parts[1])), " "@, "_"@),
                trimmed(parts[2]),
            ),
        )
    } else {
        None
    }
}

pub open spec fn triples_of(lines: Seq<Seq<char>>) -> Seq<TripleView>
    decreases lines.len(),
{
    if lines.len() == 0 {
        seq![]
    } else {
        let before = triples_of(lines.drop_last());
        match triple_of(lines.last()) {
            Some(t) => before.push(t),
            None => before,
        }
    }
}

fn read_triple(line: &[char]) -> (r: Option<Triple>)
    ensures
        match (r, triple_of(line@)) {
            (Some(t), Some(v)) => (t.0@, t.1@, t.2@) == v,
            (None, None) => true,
            _ => false,
        },
{
    let parts = text::split(line, '|');
    proof {
        assert(text::slice_views(parts@).len() == parts@.len());
    }
    if parts.len() != 3 {
        return None;
    }
    proof {
        assert(text::slice_views(parts@)[0] == parts@[0]@);
        assert(text::slice_views(parts@)[1] == parts@[1]@);
        assert(text::slice_views(parts@)[2] == parts@[2]@);
    }
    let subject = text::trim(parts[0]);
    let object = text::trim(parts[2]);
    if subject.len() == 0 || object.len() == 0 {
        return None;
    }
    let relation = text::string(text::trim(parts[1]));
    let lower = relation.as_str().to_lowercase();
    proof {
        reveal_strlit(" ");
        assert(" "@.len() == 1);
    }
    Some(
        (
            text::string(subject),
            text::replace(lower.as_str(), " ", "_"),
            text::string(object),
        ),
    )
}

/// The triples of a text, one line each. Other lines are passed over.
pub fn parse_triple_lines(source: &str) -> (r: Vec<Triple>)
    ensures
        triple_views(r@) == triples_of(lines_of(source@)),
{
    let cs = text::chars(source);
    let lines = text::lines(&cs);
    let ghost all = text::slice_views(lines@);
    let mut out: Vec<Triple> = Vec::new();
    let mut i: usize = 0;
    proof {
        assert(all.take(0) =~= seq![]);
        assert(triple_views(out@) =~= seq![]);
    }
    while i < lines.len()
        invariant
            i <= lines.len(),
            all == text::slice_views(lines@),
            triple_views(out@) == triples_of(all.take(i as int)),
        decreases lines.len() - i,
    {
        let ghost before = out@;
        proof {
            assert(all.take(i + 1).drop_last() =~= all.take(i as int));
            assert(all.take(i + 1).last() == lines@[i as int]@);
        }
        if let Some(t) = read_triple(lines[i]) {
            let ghost v = (t.0@, t.1@, t.2@);
            out.push(t);
            proof {
                assert(triple_views(out@) =~= triple_views(before).push(v));
            }
        }
        i += 1;
    }
    proof {
        assert(all.take(all.len() as int) =~= all);
    }
    out
}

/// The triples of a model's reply, where there are any, and those that were found without one
/// otherwise.
pub fn triples_or(reply: Option<String>, otherwise: Vec<Triple>) -> (r: Vec<Triple>)
    ensures
        triple_views(r@) == match opt_view(reply) {
            Some(t) if triples_of(lines_of(t)).len() > 0 => triples_of(lines_of(t)),
            _ => triple_views(otherwise@),
        },
{
    if let Some(t) = reply {
        let parsed = parse_triple_lines(t.as_str());
        proof {
            assert(triple_views(parsed@).len() == parsed@.len());
        }
        if parsed.len() > 0 {
            return parsed;
        }
    }
    otherwise
}

// ── Facts ────────────────────────────────────────────────────────────────────────────

/// Where a character stands for the last time, or -1.
pub open spec fn last_at(s: Seq<char>, c: char) -> int
    decreases s.len(),
{
    if s.len() == 0 {
        -1
    } else if s.last() == c {
        s.len() - 1
    } else {
        last_at(s.drop_last(), c)
    }
}

proof fn lemma_last_at(s: Seq<char>, c: char)
    ensures
        -1 <= last_at(s, c) < s.len(),
    decreases s.len(),
{
    if s.len() > 0 && s.last() != c {
        lemma_last_at(s.drop_last(), c);
    }
}

/// A fact: its subject, where it has one, and what it says.
pub type Fact = (Option<String>, String);

pub type FactView = (Option<Seq<char>>, Seq<char>);

pub open spec fn fact_views(v: Seq<Fact>) -> Seq<FactView> {
    v.map_values(|f: Fact| (opt_view(f.0), f.1@))
}

/// The fact of an element, if it has content that is not blank.
pub open spec fn fact_of(v: JsonView) -> Option<FactView> {
    match json::opt_field(Some(v), "content"@) {
        Some(JsonView::Str(c)) if trimmed(c).len() > 0 => Some(
            (
                match json::opt_field(Some(v), "subject"@) {
                    Some(JsonView::Str(s)) if s.len() > 0 => Some(s),
                    _ => None,
                },
                trimmed(c),
            ),
        ),
        _ => None,
    }
}

pub open spec fn facts_among(items: Seq<JsonView>) -> Seq<FactView>
    decreases items.len(),
{
    if items.len() == 0 {
        seq![]
    } else {
        let before = facts_among(items.drop_last());
        match fact_of(items.last()) {
            Some(f) => before.push(f),
            None => before,
        }
    }
}

/// The facts of a reply: those of the outermost array in it, whatever stands around. `None` where
/// there is no array that can be read.
pub open spec fn facts_of(source: Seq<char>) -> Option<Seq<FactView>> {
    let start = find(source, '[');
    let end = last_at(source, ']');
    if start >= source.len() || end <= start {
        None
    } else {
        match json::parsed(source.subrange(start, end + 1)) {
            Some(JsonView::Array(items)) => Some(facts_among(items)),
            _ => None,
        }
    }
}

fn find_last(s: &Vec<char>, c: char) -> (r: Option<usize>)
    ensures
        match r {
            Some(i) => i == last_at(s@, c),
            None => last_at(s@, c) == -1,
        },
{
    let mut n: usize = s.len();
    proof {
        assert(s@.take(n as int) =~= s@);
    }
    while n > 0
        invariant
            n <= s.len(),
            last_at(s@.take(n as int), c) == last_at(s@, c),
        decreases n,
    {
        proof {
            assert(s@.take(n as int).last() == s@[n - 1]);
            assert(s@.take(n as int).drop_last() =~= s@.take(n - 1));
        }
        if s[n - 1] == c {
            return Some(n - 1);
        }
        n -= 1;
    }
    None
}

fn read_fact(v: &Json) -> (r: Option<Fact>)
    ensures
        match (r, fact_of(v@)) {
            (Some(f), Some(view)) => (opt_view(f.0), f.1@) == view,
            (None, None) => true,
            _ => false,
        },
{
    let content = match v.get("content") {
        Some(Json::Str(c)) => text::trim_str(c.as_str()),
        _ => {
            return None;
        },
    };
    if text::chars(content.as_str()).len() == 0 {
        return None;
    }
    let subject = match v.get("subject") {
        Some(Json::Str(s)) => if text::chars(s.as_str()).len() > 0 {
            Some(s.clone())
        } else {
            None
        },
        _ => None,
    };
    Some((subject, content))
}

/// Reads the facts of an array, passing over elements that say nothing.
pub fn read_facts(items: &Vec<Json>) -> (r: Vec<Fact>)
    ensures
        fact_views(r@) == facts_among(crate::runtime::agent::json_views(items@)),
{
    let ghost all = crate::runtime::agent::json_views(items@);
    let mut out: Vec<Fact> = Vec::new();
    let mut i: usize = 0;
    proof {
        assert(all.take(0) =~= seq![]);
        assert(fact_views(out@) =~= seq![]);
    }
    while i < items.len()
        invariant
            i <= items.len(),
            all == crate::runtime::agent::json_views(items@),
            fact_views(out@) == facts_among(all.take(i as int)),
        decreases items.len() - i,
    {
        let ghost before = out@;
        proof {
            assert(all.take(i + 1).drop_last() =~= all.take(i as int));
            assert(all.take(i + 1).last() == items@[i as int]@);
        }
        if let Some(f) = read_fact(&items[i]) {
            let ghost v = (opt_view(f.0), f.1@);
            out.push(f);
            proof {
                assert(fact_views(out@) =~= fact_views(before).push(v));
            }
        }
        i += 1;
    }
    proof {
        assert(all.take(all.len() as int) =~= all);
    }
    out
}

/// Reads the facts of a model's reply, leniently: prose and fences around the array are passed over,
/// and so are elements that say nothing.
pub fn parse_extracted_facts(source: &str) -> (r: Option<Vec<Fact>>)
    ensures
        match (r, facts_of(source@)) {
            (Some(facts), Some(views)) => fact_views(facts@) == views,
            (None, None) => true,
            _ => false,
        },
{
    let cs = text::chars(source);
    let start: usize = text::find_char(&cs, '[');
    proof {
        text::lemma_find(cs@, '[');
        lemma_last_at(cs@, ']');
    }
    if start >= cs.len() {
        return None;
    }
    let end: usize = match find_last(&cs, ']') {
        Some(e) => e,
        None => {
            return None;
        },
    };
    if end <= start {
        return None;
    }
    let inner = text::string(vstd::slice::slice_subrange(cs.as_slice(), start, end + 1));
    let items = match json::parse(inner.as_str()) {
        Some(Json::Array(items)) => items,
        _ => {
            return None;
        },
    };
    let ghost all = json::tree(Json::Array(items))->Array_0;
    proof {
        assert(crate::runtime::agent::json_views(items@) =~= all);
    }
    Some(read_facts(&items))
}

/// The facts of a text: those of a model's reply, where there are any, and the text itself as one
/// fact otherwise.
pub fn extract_facts(reply: Option<String>, source: &str) -> (r: Vec<Fact>)
    ensures
        fact_views(r@) == match opt_view(reply) {
            Some(t) if facts_of(t) is Some && facts_of(t)->0.len() > 0 => facts_of(t)->0,
            _ => seq![(None::<Seq<char>>, source@)],
        },
        r@.len() > 0,
{
    if let Some(t) = reply {
        if let Some(facts) = parse_extracted_facts(t.as_str()) {
            proof {
                assert(fact_views(facts@).len() == facts@.len());
            }
            if facts.len() > 0 {
                return facts;
            }
        }
    }
    let mut one: Vec<Fact> = Vec::new();
    one.push((None, source.to_owned()));
    proof {
        assert(fact_views(one@) =~= seq![(None::<Seq<char>>, source@)]);
    }
    one
}

/// A model that fails loses nothing: without a reply that can be read, the text is remembered as it
/// is.
pub proof fn law_text_is_never_lost(reply: Seq<char>)
    requires
        find(reply, '[') >= reply.len() || last_at(reply, ']') <= find(reply, '['),
    ensures
        facts_of(reply) is None,
{
}

} // verus!
