//! What becomes of the sections of a document, and of the events that are promoted.

use vstd::prelude::*;

use crate::engine::documents::{
    document_origin, dropped, expired_row, gone, outcomes_of, promoted_input, promoted_inputs, pruned,
    section_inputs, section_metadata, swept, tally,
};
use crate::ingest::chunk::{subject_of, ChunkView};
use crate::ingest::promote::{covers, promotion, vendor_of};
use crate::json::{integer_of, lemma_with_field, lookup, string_views, with_field, JsonView};
use crate::memory::cognition::{
    InputView, MemoryAdd, MemoryOutcome, MemoryState, MemoryView, RowView, ScopeView,
};
use crate::memory::event::EventView;
use crate::text::{decimal_of, folded};

verus! {

// ── Sections ─────────────────────────────────────────────────────────────────────────

/// Every section of a document is written, in its order: its text under its address, in the scope
/// and the project of the import, and valid since when the document says.
pub proof fn law_sections_are_written_as_they_stand(
    scope: ScopeView,
    path: Seq<char>,
    metadata: JsonView,
    valid_from: Option<i128>,
    project: Option<Seq<char>>,
    chunks: Seq<(ChunkView, nat)>,
    i: int,
)
    requires
        0 <= i < chunks.len(),
    ensures
        ({
            let inputs = section_inputs(scope, path, metadata, valid_from, project, chunks);
            let input = inputs[i];
            let c = chunks[i].0;
            &&& inputs.len() == chunks.len()
            &&& input.content == c.text
            &&& input.subject == Some(subject_of(c, path, Some(chunks[i].1)))
            &&& input.scope == scope && input.project == project
            &&& input.valid_from == valid_from
            &&& input.mem_type == Some("chunk"@)
            &&& input.importance is None && input.source_event_ids.len() == 0
            &&& input.metadata == section_metadata(metadata, path, c)
        }),
{
}

/// A section says which document it is of and where it stands there, and all that the importer said
/// of the document it says too. What is no object is left as it is.
pub proof fn law_sections_say_where_they_stand(
    metadata: JsonView,
    path: Seq<char>,
    c: ChunkView,
    name: Seq<char>,
)
    ensures
        metadata is Object ==> {
            let m = section_metadata(metadata, path, c);
            &&& m.field("doc_path"@) == Some(JsonView::Str(path))
            &&& m.field("heading_path"@) == Some(
                JsonView::Array(c.heading_path.map_values(|s: Seq<char>| JsonView::Str(s))),
            )
            &&& m.field("ordinal"@) == Some(integer_of(c.ordinal as u64))
            &&& name != "doc_path"@ && name != "heading_path"@ && name != "ordinal"@ && name
                != "provenance"@ ==> m.field(name) == metadata.field(name)
        },
        !(metadata is Object) ==> section_metadata(metadata, path, c) == metadata,
{
    if metadata is Object {
        reveal_strlit("provenance");
        reveal_strlit("doc_path");
        reveal_strlit("heading_path");
        reveal_strlit("ordinal");
        let doc = "doc_path"@;
        let prov = "provenance"@;
        let trail = "heading_path"@;
        let ord = "ordinal"@;
        assert(prov.len() == 10 && doc.len() == 8 && trail.len() == 12 && ord.len() == 7);
        let fields = metadata->Object_0;
        let a = with_field(fields, doc, JsonView::Str(path));
        let origin = document_origin(path);
        let b = if lookup(a, prov) is Some {
            a
        } else {
            with_field(a, prov, origin)
        };
        let hs = JsonView::Array(string_views(c.heading_path));
        let d = with_field(b, trail, hs);
        let n = integer_of(c.ordinal as u64);
        lemma_one_name(fields, doc, JsonView::Str(path), doc, name);
        lemma_one_name(a, prov, origin, doc, name);
        lemma_one_name(b, trail, hs, doc, name);
        lemma_one_name(b, trail, hs, trail, name);
        lemma_one_name(d, ord, n, doc, name);
        lemma_one_name(d, ord, n, trail, name);
        lemma_one_name(d, ord, n, ord, name);
        assert(string_views(c.heading_path) =~= c.heading_path.map_values(
            |s: Seq<char>| JsonView::Str(s),
        ));
    }
}

proof fn lemma_one_name(
    fields: Seq<(Seq<char>, JsonView)>,
    key: Seq<char>,
    value: JsonView,
    a: Seq<char>,
    b: Seq<char>,
)
    ensures
        lookup(with_field(fields, key, value), a) == if a == key {
            Some(value)
        } else {
            lookup(fields, a)
        },
        lookup(with_field(fields, key, value), b) == if b == key {
            Some(value)
        } else {
            lookup(fields, b)
        },
{
    lemma_with_field(fields, key, value, a);
    lemma_with_field(fields, key, value, b);
}

/// Every write of an import is looked at when its outcomes are counted.
pub proof fn law_every_write_has_its_outcome(adds: Seq<MemoryAdd>, i: int)
    requires
        0 <= i < adds.len(),
    ensures
        outcomes_of(adds).len() == adds.len(),
        outcomes_of(adds)[i] == adds[i].outcome,
{
}

/// A count of outcomes is the number of those that are one of the two.
pub proof fn law_counts_count(outcomes: Seq<MemoryOutcome>, a: MemoryOutcome, b: MemoryOutcome)
    ensures
        tally(outcomes, a, b) == outcomes.filter(|o: MemoryOutcome| o == a || o == b).len(),
    decreases outcomes.len(),
{
    reveal(Seq::filter);
    if outcomes.len() > 0 {
        law_counts_count(outcomes.drop_last(), a, b);
    }
}

// ── What is gone ─────────────────────────────────────────────────────────────────────

/// What is retired of a list of memories: a row is among the retired exactly where it is a memory
/// that was picked, expired now and otherwise as it was.
proof fn lemma_retired(
    ms: Seq<MemoryView>,
    p: spec_fn(MemoryView) -> bool,
    now: i128,
    row: RowView,
)
    ensures
        ms.filter(p).map_values(|m: MemoryView| expired_row(m, now)).contains(row) <==> exists|k:
            int|
            0 <= k < ms.len() && p(#[trigger] ms[k]) && row == expired_row(ms[k], now),
{
    let f = |m: MemoryView| expired_row(m, now);
    let kept = ms.filter(p);
    let rows = kept.map_values(f);
    if rows.contains(row) {
        let i = choose|i: int| 0 <= i < rows.len() && rows[i] == row;
        ms.lemma_filter_pred(p, i);
        ms.lemma_filter_contains_rev(p, kept[i]);
        let k = choose|k: int| 0 <= k < ms.len() && ms[k] == kept[i];
        assert(p(ms[k]) && row == expired_row(ms[k], now));
    }
    assert forall|k: int|
        0 <= k < ms.len() && p(#[trigger] ms[k]) && row == expired_row(
            ms[k],
            now,
        ) implies rows.contains(row) by {
        ms.lemma_filter_contains(p, k);
        let i = choose|i: int| 0 <= i < kept.len() && kept[i] == ms[k];
        assert(rows[i] == row);
    }
}

/// A new version of a document expires exactly the sections that it does not have any more: each is
/// closed now, keeps what it said, and is found by no vector.
pub proof fn law_vanished_sections_expire(
    previous: Seq<MemoryView>,
    produced: Seq<Seq<char>>,
    now: i128,
    row: RowView,
)
    ensures
        swept(previous, produced, now).contains(row) <==> exists|k: int|
            0 <= k < previous.len() && (#[trigger] previous[k]).subject is Some
                && !produced.contains(previous[k].subject->0) && row == (RowView {
                memory: MemoryView {
                    state: MemoryState::Expired,
                    valid_to: Some(now),
                    updated_at: now,
                    ..previous[k]
                },
                embedding: None,
            }),
{
    let p = |m: MemoryView| gone(m, produced);
    lemma_retired(previous, p, now, row);
    if swept(previous, produced, now).contains(row) {
        let k = choose|k: int|
            0 <= k < previous.len() && p(#[trigger] previous[k]) && row == expired_row(
                previous[k],
                now,
            );
        assert(!produced.contains(previous[k].subject->0));
    }
    assert forall|k: int|
        0 <= k < previous.len() && (#[trigger] previous[k]).subject is Some && !produced.contains(
            previous[k].subject->0,
        ) && row == expired_row(previous[k], now) implies swept(previous, produced, now).contains(
        row,
    ) by {
        assert(p(previous[k]));
    }
}

/// Pruning expires exactly the sections of documents that are not kept. A section that records the
/// path of its document goes by that, whatever its case and white space; one that does not goes by
/// its subject: the path itself, the path with a section behind `#`, or with the number of a part
/// behind `~`. What has no subject is not touched.
pub proof fn law_pruning_takes_what_is_not_kept(
    active: Seq<MemoryView>,
    keep: Seq<Seq<char>>,
    now: i128,
    k: int,
)
    requires
        0 <= k < active.len(),
    ensures
        ({
            let m = active[k];
            let path = m.metadata.field("doc_path"@);
            let by_path = exists|i: int|
                0 <= i < keep.len() && folded(#[trigger] keep[i]) == folded(path->0->Str_0);
            let by_subject = exists|i: int|
                0 <= i < keep.len() && {
                    let d = #[trigger] keep[i];
                    let s = m.subject->0;
                    ||| s == d
                    ||| (d + "#"@).len() <= s.len() && s.take((d + "#"@).len() as int) == d + "#"@
                    ||| exists|n: nat| s == d + "~"@ + #[trigger] decimal_of(n)
                };
            let goes = m.subject is Some && (if path is Some && path->0 is Str {
                !by_path
            } else {
                !by_subject
            });
            &&& goes <==> dropped(m, keep)
            &&& goes ==> pruned(active, keep, now).contains(
                RowView {
                    memory: MemoryView {
                        state: MemoryState::Expired,
                        valid_to: Some(now),
                        updated_at: now,
                        ..m
                    },
                    embedding: None,
                },
            )
        }),
{
    let p = |m: MemoryView| dropped(m, keep);
    let m = active[k];
    lemma_retired(active, p, now, expired_row(m, now));
    let s = m.subject->0;
    let by_subject = exists|i: int|
        0 <= i < keep.len() && {
            let d = #[trigger] keep[i];
            ||| s == d
            ||| (d + "#"@).len() <= s.len() && s.take((d + "#"@).len() as int) == d + "#"@
            ||| exists|n: nat| s == d + "~"@ + #[trigger] decimal_of(n)
        };
    if by_subject {
        let i = choose|i: int|
            0 <= i < keep.len() && {
                let d = #[trigger] keep[i];
                ||| s == d
                ||| (d + "#"@).len() <= s.len() && s.take((d + "#"@).len() as int) == d + "#"@
                ||| exists|n: nat| s == d + "~"@ + #[trigger] decimal_of(n)
            };
        assert(crate::engine::documents::subject_within(s, keep[i]));
    }
    if crate::engine::documents::subject_kept(s, keep) {
        let i = choose|i: int|
            0 <= i < keep.len() && crate::engine::documents::subject_within(s, #[trigger] keep[i]);
        assert(keep[i] == keep[i]);
    }
    if dropped(m, keep) {
        assert(p(active[k]));
    }
}

/// Pruning touches nothing that is kept.
pub proof fn law_pruning_spares_what_is_kept(
    active: Seq<MemoryView>,
    keep: Seq<Seq<char>>,
    now: i128,
    i: int,
)
    requires
        0 <= i < pruned(active, keep, now).len(),
    ensures
        exists|k: int|
            0 <= k < active.len() && dropped(#[trigger] active[k], keep) && pruned(
                active,
                keep,
                now,
            )[i] == expired_row(active[k], now),
{
    let p = |m: MemoryView| dropped(m, keep);
    let row = pruned(active, keep, now)[i];
    lemma_retired(active, p, now, row);
    assert(pruned(active, keep, now).contains(row));
    let k = choose|k: int|
        0 <= k < active.len() && p(#[trigger] active[k]) && row == expired_row(active[k], now);
    assert(dropped(active[k], keep));
}

// ── Promoted events ──────────────────────────────────────────────────────────────────

/// An event becomes a memory exactly where a rule asks for it and it can be told: the memory is
/// that of the event, with its time and its id, in the scope of the tenant alone.
pub proof fn law_wanted_events_are_promoted(
    tenant: Seq<char>,
    events: Seq<EventView>,
    rules: Seq<Seq<char>>,
    input: InputView,
)
    ensures
        promoted_inputs(tenant, events, rules).contains(input) <==> exists|i: int|
            0 <= i < events.len() && told(tenant, #[trigger] events[i], rules, input),
    decreases events.len(),
{
    if events.len() > 0 {
        let rest = events.drop_last();
        let e = events.last();
        law_wanted_events_are_promoted(tenant, rest, rules, input);
        let before = promoted_inputs(tenant, rest, rules);
        let after = promoted_inputs(tenant, events, rules);
        assert(events[events.len() - 1] == e);
        lemma_told(tenant, e, rules, input);
        if before.contains(input) {
            let k = choose|k: int| 0 <= k < before.len() && before[k] == input;
            assert(after[k] == input);
            let i = choose|i: int|
                0 <= i < rest.len() && told(tenant, #[trigger] rest[i], rules, input);
            assert(events[i] == rest[i]);
        }
        if told(tenant, e, rules, input) {
            assert(after[before.len() as int] == input);
        }
        if after.contains(input) && !before.contains(input) {
            let k = choose|k: int| 0 <= k < after.len() && after[k] == input;
            assert(k == before.len() || before[k] == input);
            assert(k == before.len());
        }
        assert forall|i: int|
            0 <= i < events.len() && told(
                tenant,
                #[trigger] events[i],
                rules,
                input,
            ) implies after.contains(input) by {
            if i < rest.len() {
                assert(rest[i] == events[i]);
            }
        }
    }
}

/// Is this the memory of an event that a rule asks for?
pub open spec fn told(
    tenant: Seq<char>,
    e: EventView,
    rules: Seq<Seq<char>>,
    input: InputView,
) -> bool {
    let p = promotion(e.source, e.event_type, e.payload);
    &&& p is Some
    &&& exists|k: int|
        0 <= k < rules.len() && covers(#[trigger] rules[k], vendor_of(e.source), e.event_type)
    &&& input.scope == (ScopeView {
        tenant_id: tenant,
        user_id: None,
        agent_id: None,
        session_id: None,
    })
    &&& input.subject == Some(p->0.subject)
    &&& input.content == p->0.content
    &&& input.source_event_ids == seq![e.id]
    &&& input.valid_from == Some(e.timestamp as i128)
    &&& input.mem_type == Some("episodic"@)
    &&& input.importance is None && input.project is None
    &&& input.metadata == JsonView::Object(
        seq![
            ("source"@, JsonView::Str(e.source)),
            ("event_type"@, JsonView::Str(e.event_type)),
            ("promoted"@, JsonView::Bool(true)),
        ],
    )
}

proof fn lemma_told(tenant: Seq<char>, e: EventView, rules: Seq<Seq<char>>, input: InputView)
    ensures
        told(tenant, e, rules, input) <==> crate::engine::documents::wanted(e, rules) && promotion(
            e.source,
            e.event_type,
            e.payload,
        ) is Some && input == promoted_input(
            tenant,
            e,
            promotion(e.source, e.event_type, e.payload)->0,
        ),
{
    if told(tenant, e, rules, input) {
        let p = promotion(e.source, e.event_type, e.payload)->0;
        assert(input.source_event_ids =~= promoted_input(tenant, e, p).source_event_ids);
        assert(input == promoted_input(tenant, e, p));
    }
}

/// Promoted events keep their order: later ones are only added behind.
pub proof fn law_promotions_keep_their_order(
    tenant: Seq<char>,
    events: Seq<EventView>,
    rules: Seq<Seq<char>>,
    n: int,
)
    requires
        0 <= n <= events.len(),
    ensures
        promoted_inputs(tenant, events.take(n), rules).is_prefix_of(
            promoted_inputs(tenant, events, rules),
        ),
    decreases events.len() - n,
{
    if n == events.len() {
        assert(events.take(n) =~= events);
    } else {
        law_promotions_keep_their_order(tenant, events, rules, n + 1);
        assert(events.take(n + 1).drop_last() =~= events.take(n));
    }
}

} // verus!
