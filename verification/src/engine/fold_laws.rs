//! What is kept where memories are folded, and where text is turned into memories.

use vstd::prelude::*;

use crate::engine::apply::TripleView;
use crate::engine::consolidate::{
    bullets, cluster_of, folded, grouped_after, ids_of, merged, reembedded, remembered, strongest,
    summary,
};
use crate::engine::extract::{
    fact_of, facts_among, facts_of, last_at, triple_of, triples_of, FactView,
};
use crate::engine::sessions::{digest, digest_line, distilled};
use crate::ids::uuid_notation;
use crate::json::{compact, lookup, parsed, JsonView};
use crate::memory::cognition::{HitView, MemoryView, RowView, ScopeView};
use crate::memory::facts::attributed;
use crate::score::{nan, order, Score};
use crate::text::{
    decimal_of, find, joined, lemma_find, lowered, replaced, split_on, trimmed, white,
};

verus! {

// ── Summaries ────────────────────────────────────────────────────────────────────────

/// A summary is what a model wrote, or, where it wrote nothing, says word for word what every memory
/// says: folding loses no content.
pub proof fn law_summaries_lose_no_content(ms: Seq<MemoryView>, reply: Option<Seq<char>>)
    ensures
        reply is Some && trimmed(reply->0).len() > 0 ==> summary(ms, reply) == trimmed(reply->0),
        reply is None || trimmed(reply->0).len() == 0 ==> summary(ms, reply) == "Consolidated "@
            + decimal_of(ms.len()) + " memories:\n"@ + joined(
            ms.map_values(|m: MemoryView| "- "@ + m.content),
            "\n"@,
        ),
{
    assert(bullets(ms) =~= ms.map_values(|m: MemoryView| "- "@ + m.content));
}

/// The memories that are expired for a summary are those that it sums up, all of them and no other.
pub proof fn law_what_is_summed_up_is_expired(ms: Seq<MemoryView>, i: int)
    requires
        0 <= i < ms.len(),
    ensures
        ids_of(ms).len() == ms.len(),
        ids_of(ms)[i] == ms[i].id,
{
}

/// The summary of folded memories is of their scope, names every one of them, and says that the
/// engine wrote it, so that a tenant that asks for attribution accepts it.
pub proof fn law_folded_memories_are_named(
    scope: ScopeView,
    ms: Seq<MemoryView>,
    content: Seq<char>,
    i: int,
)
    requires
        0 <= i < ms.len(),
    ensures
        ({
            let input = folded(scope, ms, content);
            let ids = input.metadata.field("source_memory_ids"@);
            &&& input.scope == scope && input.content == content
            &&& input.importance == Some(Score { bits: 0x3f19_999a })
            &&& input.subject is None && input.project is None && input.valid_from is None
            &&& input.metadata.field("consolidated"@) == Some(JsonView::Bool(true))
            &&& ids is Some && ids->0 is Array && ids->0->Array_0.len() == ms.len()
            &&& ids->0->Array_0[i] == JsonView::Str(uuid_notation(ms[i].id))
            &&& attributed(input.metadata, 0)
        }),
{
    lemma_summary_names();
    lemma_own_origin();
    reveal_with_fuel(lookup, 4);
    let fields = folded(scope, ms, content).metadata->Object_0;
    assert(fields.drop_first()[0] == fields[1]);
    assert(fields.drop_first().drop_first()[0] == fields[2]);
}

/// The summary of a cluster is of its scope, names every memory of it, is as important as one of
/// them and as none is more, and says that the engine wrote it.
pub proof fn law_clustered_memories_are_named(
    scope: ScopeView,
    ms: Seq<MemoryView>,
    content: Seq<char>,
    i: int,
)
    requires
        0 <= i < ms.len(),
    ensures
        ({
            let input = merged(scope, ms, content);
            let ids = input.metadata.field("source_memory_ids"@);
            &&& input.scope == scope && input.content == content
            &&& input.subject is None && input.project is None && input.valid_from is None
            &&& input.importance == Some(strongest(ms))
            &&& input.source_event_ids == crate::engine::consolidate::all_sources(ms)
            &&& input.metadata.field("consolidated"@) == Some(JsonView::Bool(true))
            &&& input.metadata.field("consolidation"@) == Some(JsonView::Str("semantic"@))
            &&& ids is Some && ids->0 is Array && ids->0->Array_0.len() == ms.len()
            &&& ids->0->Array_0[i] == JsonView::Str(uuid_notation(ms[i].id))
            &&& attributed(input.metadata, 0)
        }),
{
    lemma_summary_names();
    lemma_own_origin();
    reveal_with_fuel(lookup, 5);
    let fields = merged(scope, ms, content).metadata->Object_0;
    assert(fields.drop_first()[0] == fields[1]);
    assert(fields.drop_first().drop_first()[0] == fields[2]);
    assert(fields.drop_first().drop_first().drop_first()[0] == fields[3]);
}

proof fn lemma_summary_names()
    ensures
        "consolidated"@.len() == 12,
        "consolidation"@.len() == 13,
        "source_memory_ids"@.len() == 17,
        "provenance"@.len() == 10,
{
    reveal_strlit("consolidated");
    reveal_strlit("consolidation");
    reveal_strlit("source_memory_ids");
    reveal_strlit("provenance");
}

proof fn lemma_own_origin()
    ensures
        crate::engine::consolidate::own_origin().field("source"@) == Some(
            JsonView::Str("ecphoria:consolidation"@),
        ),
        !crate::text::blank("ecphoria:consolidation"@),
{
    reveal_strlit("ecphoria:consolidation");
    let s = "ecphoria:consolidation"@;
    assert(s[0] == 'e');
    assert(!white(s[0]));
    let fields = crate::engine::consolidate::own_origin()->Object_0;
    assert(fields[0].0 == "source"@);
}

/// The weight of a cluster is that of one of its memories, where that is above zero.
pub proof fn law_the_strongest_is_one_of_them(ms: Seq<MemoryView>)
    ensures
        strongest(ms).bits == 0 || exists|i: int|
            0 <= i < ms.len() && (#[trigger] ms[i]).importance == strongest(ms),
    decreases ms.len(),
{
    if ms.len() > 0 {
        let rest = ms.drop_last();
        law_the_strongest_is_one_of_them(rest);
        assert(ms[ms.len() - 1] == ms.last());
        if strongest(ms) == strongest(rest) && strongest(rest).bits != 0 {
            let i = choose|i: int|
                0 <= i < rest.len() && (#[trigger] rest[i]).importance == strongest(rest);
            assert(ms[i] == rest[i]);
        }
    }
}

/// A cluster has every hit that is near enough and in no cluster yet, and no other; the order is
/// that of the hits.
pub proof fn law_clusters_take_what_is_near(
    grouped: Set<u128>,
    hits: Seq<HitView>,
    threshold: Score,
    m: MemoryView,
)
    ensures
        cluster_of(grouped, hits, threshold).contains(m) <==> exists|i: int|
            0 <= i < hits.len() && (#[trigger] hits[i]).memory == m && !grouped.contains(m.id)
                && !nan(hits[i].score) && !nan(threshold) && order(hits[i].score) >= order(
                threshold,
            ),
{
    let p = |h: HitView|
        crate::score::at_least(h.score, threshold) && !grouped.contains(h.memory.id);
    let f = |h: HitView| h.memory;
    let kept = hits.filter(p);
    let cluster = cluster_of(grouped, hits, threshold);
    assert(cluster =~= kept.map_values(f));
    if cluster.contains(m) {
        let k = choose|k: int| 0 <= k < cluster.len() && cluster[k] == m;
        hits.lemma_filter_pred(p, k);
        hits.lemma_filter_contains_rev(p, kept[k]);
        let i = choose|i: int| 0 <= i < hits.len() && hits[i] == kept[k];
        assert(hits[i].memory == m);
    }
    assert forall|i: int|
        0 <= i < hits.len() && (#[trigger] hits[i]).memory == m && p(
            hits[i],
        ) implies cluster.contains(m) by {
        hits.lemma_filter_contains(p, i);
        let k = choose|k: int| 0 <= k < kept.len() && kept[k] == hits[i];
        assert(cluster[k] == m);
    }
}

/// What counts as looked at grows by the members of a cluster, and by the memory itself where there
/// is none; nothing is forgotten.
pub proof fn law_looked_at_memories_are_marked(
    grouped: Set<u128>,
    id: u128,
    cluster: Seq<MemoryView>,
    x: u128,
)
    ensures
        cluster.len() >= 2 ==> (grouped_after(grouped, id, cluster).contains(x)
            <==> grouped.contains(x) || exists|i: int|
            0 <= i < cluster.len() && (#[trigger] cluster[i]).id == x),
        cluster.len() < 2 ==> (grouped_after(grouped, id, cluster).contains(x)
            <==> grouped.contains(x) || x == id),
{
    let ids = ids_of(cluster);
    if ids.to_set().contains(x) {
        let i = choose|i: int| 0 <= i < ids.len() && ids[i] == x;
        assert(cluster[i].id == x);
    }
    assert forall|i: int| 0 <= i < cluster.len() && (#[trigger] cluster[i]).id
        == x implies ids.to_set().contains(x) by {
        assert(ids[i] == x);
    }
}

/// A new vector goes to the memory it was made for, and nothing of that changes; one that could not
/// be embedded keeps the vector it has, and is not written.
pub proof fn law_new_vectors_go_to_their_memories(
    ms: Seq<MemoryView>,
    vectors: Seq<Option<Seq<u32>>>,
    row: RowView,
)
    requires
        vectors.len() == ms.len(),
    ensures
        reembedded(ms, vectors).contains(row) <==> exists|i: int|
            0 <= i < ms.len() && (#[trigger] ms[i]) == row.memory && vectors[i] is Some
                && row.embedding == vectors[i],
    decreases ms.len(),
{
    if ms.len() > 0 {
        let n = ms.len() - 1;
        let rest = ms.drop_last();
        let vs = vectors.take(n);
        law_new_vectors_go_to_their_memories(rest, vs, row);
        let before = reembedded(rest, vs);
        let after = reembedded(ms, vectors);
        if before.contains(row) {
            let k = choose|k: int| 0 <= k < before.len() && before[k] == row;
            assert(after[k] == row);
            let i = choose|i: int|
                0 <= i < rest.len() && (#[trigger] rest[i]) == row.memory && vs[i] is Some
                    && row.embedding == vs[i];
            assert(ms[i] == row.memory && vectors[i] == vs[i]);
        }
        if vectors[n] is Some && ms[n] == row.memory && row.embedding == vectors[n] {
            assert(after[before.len() as int] == row);
        }
        if after.contains(row) && !before.contains(row) {
            let k = choose|k: int| 0 <= k < after.len() && after[k] == row;
            assert(k == before.len() || before[k] == row);
            assert(k == before.len());
            assert(ms[n] == row.memory);
        }
        assert forall|i: int|
            0 <= i < ms.len() && (#[trigger] ms[i]) == row.memory && vectors[i] is Some
                && row.embedding == vectors[i] implies after.contains(row) by {
            if i < n {
                assert(rest[i] == ms[i] && vs[i] == vectors[i]);
            }
        }
    }
}

// ── Facts and triples ────────────────────────────────────────────────────────────────

/// Every fact of a text becomes a memory of the scope, in order, under its subject.
pub proof fn law_facts_are_remembered(scope: ScopeView, facts: Seq<FactView>, i: int)
    requires
        0 <= i < facts.len(),
    ensures
        ({
            let inputs = remembered(scope, facts);
            &&& inputs.len() == facts.len()
            &&& inputs[i].scope == scope
            &&& inputs[i].subject == facts[i].0
            &&& inputs[i].content == facts[i].1
            &&& inputs[i].importance is None && inputs[i].mem_type is None
            &&& inputs[i].project is None && inputs[i].valid_from is None
        }),
{
}

/// Every fact of a session becomes a memory of that session, of what happened in it.
pub proof fn law_sessions_are_distilled(
    scope: ScopeView,
    session: Seq<char>,
    facts: Seq<FactView>,
    i: int,
)
    requires
        0 <= i < facts.len(),
    ensures
        ({
            let inputs = distilled(scope, session, facts);
            &&& inputs.len() == facts.len()
            &&& inputs[i].scope.session_id == Some(session)
            &&& inputs[i].scope.tenant_id == scope.tenant_id
            &&& inputs[i].scope.user_id == scope.user_id
            &&& inputs[i].scope.agent_id == scope.agent_id
            &&& inputs[i].subject == facts[i].0
            &&& inputs[i].content == facts[i].1
            &&& inputs[i].mem_type == Some("episodic"@)
        }),
{
}

/// An element of a reply is a fact exactly where it has content that is not blank: that content,
/// without white space around it, under its subject where that is not empty.
pub proof fn law_facts_are_read_from_their_content(
    v: JsonView,
    content: Seq<char>,
    subject: Option<JsonView>,
)
    requires
        v.field("subject"@) == subject,
    ensures
        v.field("content"@) == Some(JsonView::Str(content)) && trimmed(content).len() > 0 ==> {
            let named = subject is Some && subject->0 is Str && subject->0->Str_0.len() > 0;
            &&& named ==> fact_of(v) == Some((Some(subject->0->Str_0), trimmed(content)))
            &&& !named ==> fact_of(v) == Some((None::<Seq<char>>, trimmed(content)))
        },
        v.field("content"@) == Some(JsonView::Str(content)) && trimmed(content).len() == 0
            ==> fact_of(v) is None,
        !(v.field("content"@) is Some && v.field("content"@)->0 is Str) ==> fact_of(v) is None,
{
}

/// The facts of a list are those of its elements: none is passed over that says something.
pub proof fn law_all_facts_are_read(items: Seq<JsonView>, f: FactView)
    ensures
        facts_among(items).contains(f) <==> exists|i: int|
            0 <= i < items.len() && fact_of(#[trigger] items[i]) == Some(f),
    decreases items.len(),
{
    if items.len() > 0 {
        let rest = items.drop_last();
        law_all_facts_are_read(rest, f);
        let before = facts_among(rest);
        let after = facts_among(items);
        assert(items[items.len() - 1] == items.last());
        if before.contains(f) {
            let k = choose|k: int| 0 <= k < before.len() && before[k] == f;
            assert(after[k] == f);
            let i = choose|i: int| 0 <= i < rest.len() && fact_of(#[trigger] rest[i]) == Some(f);
            assert(items[i] == rest[i]);
        }
        if fact_of(items.last()) == Some(f) {
            assert(after[before.len() as int] == f);
        }
        if after.contains(f) && !before.contains(f) {
            let k = choose|k: int| 0 <= k < after.len() && after[k] == f;
            assert(k == before.len() || before[k] == f);
        }
        assert forall|i: int|
            0 <= i < items.len() && fact_of(#[trigger] items[i]) == Some(
                f,
            ) implies after.contains(f) by {
            if i < rest.len() {
                assert(rest[i] == items[i]);
            }
        }
    }
}

/// A reply is read from its first bracket to its last, whatever stands around: prose before and
/// behind the list does not count.
pub proof fn law_prose_around_a_list_is_passed_over(
    before: Seq<char>,
    list: Seq<char>,
    behind: Seq<char>,
)
    requires
        list.len() >= 2,
        list[0] == '[' && list.last() == ']',
        !before.contains('['),
        !behind.contains(']'),
    ensures
        facts_of(before + list + behind) == facts_of(list),
        parsed(list) is Some && parsed(list)->0 is Array ==> facts_of(before + list + behind)
            == Some(facts_among(parsed(list)->0->Array_0)),
        !(parsed(list) is Some && parsed(list)->0 is Array) ==> facts_of(before + list + behind)
            is None,
{
    let s = before + list + behind;
    let a = before.len() as int;
    let b = a + list.len() - 1;
    lemma_find(s, '[');
    assert(s[a] == '[');
    assert(find(s, '[') == a) by {
        let k = find(s, '[');
        if k < a {
            assert(before[k] == '[');
            assert(before.contains(before[k]));
        }
    }
    assert(last_at(s, ']') == b) by {
        assert(s[b] == ']');
        assert(s.skip(b + 1) =~= behind);
        lemma_last_at_is(s, ']', b, behind);
    }
    assert(s.subrange(a, b + 1) =~= list);
    lemma_find(list, '[');
    assert(find(list, '[') == 0);
    assert(list.skip(list.len() as int) =~= seq![]);
    lemma_last_at_is(list, ']', list.len() - 1, seq![]);
    assert(list.subrange(0, list.len() as int) =~= list);
}

proof fn lemma_last_at_is(s: Seq<char>, c: char, at: int, rest: Seq<char>)
    requires
        0 <= at < s.len(),
        s[at] == c,
        s.skip(at + 1) == rest,
        !rest.contains(c),
    ensures
        last_at(s, c) == at,
    decreases s.len(),
{
    if s.len() - 1 > at {
        assert(rest[s.len() - 2 - at] == s.last());
        assert(rest.contains(s.last()));
        let less = s.drop_last();
        assert(less.skip(at + 1) =~= rest.drop_last());
        assert forall|i: int| 0 <= i < rest.drop_last().len() implies rest.drop_last()[i] != c by {
            assert(rest.contains(rest[i]));
        }
        lemma_last_at_is(less, c, at, rest.drop_last());
    }
}

/// A line of three parts is a triple: the subject and the object without white space around them,
/// and the relation in lower case with `_` for a blank. Neither end may be blank.
pub proof fn law_lines_of_three_parts_are_triples(a: Seq<char>, b: Seq<char>, c: Seq<char>)
    requires
        !a.contains('|') && !b.contains('|') && !c.contains('|'),
    ensures
        trimmed(a).len() > 0 && trimmed(c).len() > 0 ==> triple_of(a + "|"@ + b + "|"@ + c) == Some(
            (trimmed(a), replaced(lowered(trimmed(b)), " "@, "_"@), trimmed(c)),
        ),
        trimmed(a).len() == 0 || trimmed(c).len() == 0 ==> triple_of(a + "|"@ + b + "|"@ + c)
            is None,
        triple_of(a) is None,
{
    reveal_strlit("|");
    let s = a + "|"@ + b + "|"@ + c;
    let t = b + "|"@ + c;
    lemma_split_first(s, a, t);
    lemma_split_first(t, b, c);
    lemma_split_none(c);
    lemma_split_none(a);
    assert(split_on(s, '|') =~= seq![a, b, c]);
}

proof fn lemma_split_none(s: Seq<char>)
    requires
        !s.contains('|'),
    ensures
        split_on(s, '|') == seq![s],
{
    lemma_find(s, '|');
    let k = find(s, '|');
    if k < s.len() {
        assert(s.contains(s[k]));
    }
}

proof fn lemma_split_first(s: Seq<char>, a: Seq<char>, rest: Seq<char>)
    requires
        !a.contains('|'),
        s.take(a.len() as int) =~= a,
        s.len() == a.len() + 1 + rest.len(),
        s[a.len() as int] == '|',
        s.skip(a.len() as int + 1) =~= rest,
    ensures
        split_on(s, '|') == seq![a] + split_on(rest, '|'),
{
    lemma_find(s, '|');
    let k = find(s, '|');
    if k < a.len() {
        assert(s.take(a.len() as int)[k] == s[k]);
        assert(a.contains(a[k]));
    }
    assert(k == a.len());
}

/// The triples of a text are those of its lines: none is passed over that is one.
pub proof fn law_all_triples_are_read(lines: Seq<Seq<char>>, t: TripleView)
    ensures
        triples_of(lines).contains(t) <==> exists|i: int|
            0 <= i < lines.len() && triple_of(#[trigger] lines[i]) == Some(t),
    decreases lines.len(),
{
    if lines.len() > 0 {
        let rest = lines.drop_last();
        law_all_triples_are_read(rest, t);
        let before = triples_of(rest);
        let after = triples_of(lines);
        assert(lines[lines.len() - 1] == lines.last());
        if before.contains(t) {
            let k = choose|k: int| 0 <= k < before.len() && before[k] == t;
            assert(after[k] == t);
            let i = choose|i: int| 0 <= i < rest.len() && triple_of(#[trigger] rest[i]) == Some(t);
            assert(lines[i] == rest[i]);
        }
        if triple_of(lines.last()) == Some(t) {
            assert(after[before.len() as int] == t);
        }
        if after.contains(t) && !before.contains(t) {
            let k = choose|k: int| 0 <= k < after.len() && after[k] == t;
            assert(k == before.len() || before[k] == t);
        }
        assert forall|i: int|
            0 <= i < lines.len() && triple_of(#[trigger] lines[i]) == Some(
                t,
            ) implies after.contains(t) by {
            if i < rest.len() {
                assert(rest[i] == lines[i]);
            }
        }
    }
}

// ── Sessions ─────────────────────────────────────────────────────────────────────────

/// The digest of a session names it and has a line for each of its events, in order, up to two
/// hundred of them.
pub proof fn law_digests_have_a_line_for_each_event(
    session: Seq<char>,
    events: Seq<JsonView>,
    event: JsonView,
)
    requires
        events.len() <= 200,
    ensures
        digest(session, seq![]) == "Session "@ + session + " summary. Events:\n"@,
        events.len() < 200 ==> digest(session, events.push(event)) == digest(session, events)
            + digest_line(event),
        events.len() == 200 ==> digest(session, events.push(event)) == digest(session, events),
{
    assert(events.push(event).drop_last() =~= events);
    assert(digest(session, seq![]) =~= "Session "@ + session + " summary. Events:\n"@);
    if events.len() < 200 {
        assert(digest(session, events.push(event)) =~= digest(session, events) + digest_line(
            event,
        ));
    } else {
        assert(events.push(event).take(200) =~= events);
    }
}

/// The line of an event says where it comes from, what it is, and how its payload begins.
pub proof fn law_digest_lines_say_what_happened(
    e: JsonView,
    source: Seq<char>,
    event_type: Seq<char>,
    payload: JsonView,
)
    requires
        e.field("source"@) == Some(JsonView::Str(source)),
        e.field("event_type"@) == Some(JsonView::Str(event_type)),
        e.field("payload"@) == Some(payload),
    ensures
        compact(payload).len() <= 300 ==> digest_line(e) == "- ["@ + source + "] "@ + event_type
            + ": "@ + compact(payload) + "\n"@,
        compact(payload).len() > 300 ==> digest_line(e) == "- ["@ + source + "] "@ + event_type
            + ": "@ + compact(payload).take(300) + "\n"@,
{
}

} // verus!
