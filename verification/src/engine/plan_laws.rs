//! What planning keeps: nothing is lost, and the versions of a subject follow one another in time.

use vstd::prelude::*;

use crate::engine::plan::{
    boundary, closed_at, closed_rows, joined_ids, latest_start, merging, planned, same_content,
    superseding, FoundView, PlanConfig,
};
use crate::json::JsonView;
use crate::memory::cognition::{
    holds_at, new_memory, HitView, InputView, MemoryOutcome, MemoryState, MemoryView, RowView,
    ScopeView,
};
use crate::score::{at_least, nan, order, Score};
use crate::text::trimmed;

verus! {

/// The latest start is that of one of the memories, and no start is after it.
pub proof fn lemma_latest_start(actives: Seq<MemoryView>)
    requires
        actives.len() > 0,
    ensures
        exists|i: int|
            0 <= i < actives.len() && (#[trigger] actives[i]).valid_from == latest_start(actives),
        forall|i: int|
            0 <= i < actives.len() ==> (#[trigger] actives[i]).valid_from <= latest_start(actives),
    decreases actives.len(),
{
    if actives.len() == 1 {
        assert(actives[0].valid_from == latest_start(actives));
    } else {
        let rest = actives.drop_last();
        lemma_latest_start(rest);
        let i = choose|i: int|
            0 <= i < rest.len() && (#[trigger] rest[i]).valid_from == latest_start(rest);
        assert(actives[i] == rest[i]);
        assert(actives[actives.len() - 1] == actives.last());
        assert forall|k: int| 0 <= k < actives.len() implies (#[trigger] actives[k]).valid_from
            <= latest_start(actives) by {
            if k < rest.len() {
                assert(rest[k] == actives[k]);
            }
        }
    }
}

/// A contradicted version ends where the new one begins, and not before it began itself: at every
/// instant from the old version's start on, exactly one of the two holds.
pub proof fn law_versions_follow_one_another(
    input: InputView,
    importance: Score,
    embedding: Option<Seq<u32>>,
    actives: Seq<MemoryView>,
    fresh: MemoryView,
    now: i128,
    i: int,
    t: i128,
)
    requires
        0 <= i < actives.len(),
        latest_start(actives) <= i128::MAX - 1000,
        fresh.valid_to is None,
    ensures
        ({
            let plan = superseding(input, importance, embedding, actives, fresh, now);
            let old = plan.rows[i].memory;
            &&& plan.rows.len() == actives.len() + 1
            &&& plan.rows.last().memory == plan.memory
            &&& old.valid_to == Some(plan.memory.valid_from)
            &&& old.valid_from < plan.memory.valid_from
            &&& t >= old.valid_from ==> (holds_at(old, t) <==> !holds_at(plan.memory, t))
        }),
{
    lemma_latest_start(actives);
    let at = boundary(input.valid_from, Some(latest_start(actives)), now) as i128;
    assert(closed_rows(actives, at, now)[i].memory == closed_at(actives[i], at, now));
}

/// So it is where a near duplicate is merged.
pub proof fn law_merged_versions_follow_one_another(
    input: InputView,
    importance: Score,
    embedding: Option<Seq<u32>>,
    top: MemoryView,
    fresh: MemoryView,
    now: i128,
    t: i128,
)
    requires
        top.valid_from <= i128::MAX - 1000,
        fresh.valid_to is None,
    ensures
        ({
            let plan = merging(input, importance, embedding, top, fresh, now);
            let old = plan.rows[0].memory;
            &&& old.valid_to == Some(plan.memory.valid_from)
            &&& old.valid_from < plan.memory.valid_from
            &&& t >= old.valid_from ==> (holds_at(old, t) <==> !holds_at(plan.memory, t))
        }),
{
}

/// What a version said before the change: all of it but its state, its end, and when it was
/// touched.
pub open spec fn kept(before: MemoryView, after: MemoryView) -> bool {
    after == (MemoryView {
        state: after.state,
        valid_to: after.valid_to,
        updated_at: after.updated_at,
        ..before
    })
}

/// Nothing is lost: what is replaced stays as it was, closed, and the new memory points back at it.
pub proof fn law_nothing_is_overwritten(
    config: PlanConfig,
    input: InputView,
    embedding: Option<Seq<u32>>,
    actives: Seq<MemoryView>,
    stored: Option<Seq<u32>>,
    fresh: MemoryView,
    now: i128,
)
    requires
        actives.len() > 0,
        !same_content(actives[0].content, input.content),
        !config.contradiction_review,
    ensures
        ({
            let found = FoundView::Subject { actives, stored };
            let plan = planned(config, input, embedding, found, fresh, now);
            &&& plan.outcome == MemoryOutcome::Superseded
            &&& plan.memory.supersedes == Some(actives[0].id)
            &&& forall|i: int|
                0 <= i < actives.len() ==> kept(actives[i], (#[trigger] plan.rows[i]).memory)
                    && plan.rows[i].memory.state == MemoryState::Superseded
        }),
{
    let at = boundary(input.valid_from, Some(latest_start(actives)), now) as i128;
    let found = FoundView::Subject { actives, stored };
    let plan = planned(config, input, embedding, found, fresh, now);
    assert forall|i: int| 0 <= i < actives.len() implies kept(
        actives[i],
        (#[trigger] plan.rows[i]).memory,
    ) && plan.rows[i].memory.state == MemoryState::Superseded by {
        assert(plan.rows[i] == closed_rows(actives, at, now)[i]);
    }
}

/// So it is where a near duplicate is merged.
pub proof fn law_nothing_is_overwritten_by_a_merge(
    input: InputView,
    importance: Score,
    embedding: Option<Seq<u32>>,
    top: MemoryView,
    fresh: MemoryView,
    now: i128,
)
    ensures
        ({
            let plan = merging(input, importance, embedding, top, fresh, now);
            &&& plan.memory.supersedes == Some(top.id)
            &&& kept(top, plan.rows[0].memory)
            &&& plan.rows[0].memory.state == MemoryState::Superseded
        }),
{
}

/// Saying the same thing again confirms it: whatever a fact came to the first time, said again it
/// is no new memory but the same one, a version on.
pub proof fn law_repetition_confirms(
    config: PlanConfig,
    input: InputView,
    again: InputView,
    embedding: Option<Seq<u32>>,
    found: FoundView,
    fresh: MemoryView,
    now: i128,
    embedding_again: Option<Seq<u32>>,
    stored: Option<Seq<u32>>,
    fresh_again: MemoryView,
    later: i128,
)
    requires
        found is Subject || found is Nothing,
        fresh.content == input.content,
        same_content(input.content, again.content),
    ensures
        ({
            let first = planned(config, input, embedding, found, fresh, now).memory;
            let plan = planned(
                config,
                again,
                embedding_again,
                FoundView::Subject { actives: seq![first], stored },
                fresh_again,
                later,
            );
            &&& plan.outcome == MemoryOutcome::Confirmed
            &&& plan.rows.len() == 1
            &&& plan.memory.id == first.id
            &&& plan.memory.content == first.content
            &&& plan.memory.valid_from == first.valid_from
            &&& plan.memory.version == (first.version + 1) as u64
        }),
{
}

/// What was written is what is remembered: the memory that stands for a write says what the input
/// says, white space at its ends aside, and word for word where it is a new one; a new one has the
/// scope of the input.
pub proof fn law_plans_say_what_was_written(
    config: PlanConfig,
    input: InputView,
    embedding: Option<Seq<u32>>,
    found: FoundView,
    id: u128,
    now: i128,
)
    ensures
        ({
            let fresh = new_memory(id, input.scope, input.content, now);
            let plan = planned(config, input, embedding, found, fresh, now);
            &&& same_content(plan.memory.content, input.content)
            &&& plan.outcome != MemoryOutcome::Confirmed ==> plan.memory.id == id
                && plan.memory.content == input.content && plan.memory.scope == input.scope
            &&& plan.rows.len() > 0
            &&& plan.rows.last().memory == plan.memory
        }),
{
}

/// A new memory is the writer's: whatever a write creates has the metadata, the kind and the weight
/// that the input gives it, or the default ones, and outside a merge the subject, the project and the
/// evidence of the input and of nothing else. It starts its life now, active and open, and its row
/// holds the embedding that was made for the input.
pub proof fn law_new_memories_are_the_writers(
    config: PlanConfig,
    input: InputView,
    embedding: Option<Seq<u32>>,
    found: FoundView,
    id: u128,
    now: i128,
)
    ensures
        ({
            let fresh = new_memory(id, input.scope, input.content, now);
            let plan = planned(config, input, embedding, found, fresh, now);
            let m = plan.memory;
            plan.outcome != MemoryOutcome::Confirmed ==> {
                &&& m.metadata == input.metadata
                &&& m.mem_type == (if input.mem_type is Some {
                    input.mem_type->0
                } else {
                    "semantic"@
                })
                &&& m.state == MemoryState::Active && m.version == 1 && m.valid_to is None
                &&& m.created_at == now && m.updated_at == now
                &&& plan.rows.last().memory == m && plan.rows.last().embedding == embedding
                &&& plan.outcome != MemoryOutcome::Merged ==> {
                    &&& m.source_event_ids == input.source_event_ids
                    &&& m.subject == input.subject
                    &&& m.project == input.project
                    &&& m.importance == (if input.importance is Some {
                        input.importance->0
                    } else {
                        config.default_importance
                    })
                }
                &&& plan.outcome == MemoryOutcome::Inserted || plan.outcome
                    == MemoryOutcome::Conflict ==> {
                    &&& m.supersedes is None
                    &&& plan.rows.len() == 1
                    &&& m.valid_from == (if input.valid_from is Some {
                        input.valid_from->0
                    } else {
                        now
                    })
                }
            }
        }),
{
}

/// What is found decides what a write comes to. A subject that nothing is known of, a memory without
/// a near duplicate, and one that could not be compared are new; of a known subject, the same words
/// confirm, and others contradict; a memory that is near enough is merged with.
pub proof fn law_outcomes_follow_from_what_is_known(
    config: PlanConfig,
    input: InputView,
    embedding: Option<Seq<u32>>,
    found: FoundView,
    fresh: MemoryView,
    now: i128,
)
    ensures
        ({
            let outcome = planned(config, input, embedding, found, fresh, now).outcome;
            let known = found is Subject && found->actives.len() > 0;
            let same = trimmed(found->actives[0].content) == trimmed(input.content);
            let near = found is Nearest && found->hit is Some && !nan(found->hit->0.score) && !nan(
                config.dedup_threshold,
            ) && order(found->hit->0.score) >= order(config.dedup_threshold);
            &&& outcome == MemoryOutcome::Confirmed <==> known && same
            &&& outcome == MemoryOutcome::Conflict <==> known && !same
                && config.contradiction_review
            &&& outcome == MemoryOutcome::Superseded <==> known && !same
                && !config.contradiction_review
            &&& outcome == MemoryOutcome::Merged <==> near
            &&& outcome == MemoryOutcome::Inserted <==> !known && !near
        }),
{
}

/// A confirmation changes nothing of a memory but its weight, its version and when it was touched.
/// The weight never falls, and the vector is the new one, or the one that was stored: it is not lost
/// where the text could not be embedded again.
pub proof fn law_confirmation_only_adds_weight(
    config: PlanConfig,
    input: InputView,
    embedding: Option<Seq<u32>>,
    actives: Seq<MemoryView>,
    stored: Option<Seq<u32>>,
    fresh: MemoryView,
    now: i128,
)
    requires
        actives.len() > 0,
        trimmed(actives[0].content) == trimmed(input.content),
    ensures
        ({
            let found = FoundView::Subject { actives, stored };
            let plan = planned(config, input, embedding, found, fresh, now);
            let old = actives[0];
            let m = plan.memory;
            let said = if input.importance is Some {
                input.importance->0
            } else {
                config.default_importance
            };
            &&& m == (MemoryView {
                importance: m.importance,
                version: (old.version + 1) as u64,
                updated_at: now,
                ..old
            })
            &&& m.importance == said || m.importance == old.importance
            &&& !nan(old.importance) ==> !nan(m.importance) && order(m.importance) >= order(
                old.importance,
            )
            &&& !nan(said) ==> !nan(m.importance) && order(m.importance) >= order(said)
            &&& plan.rows.len() == 1
            &&& plan.rows[0].memory == m
            &&& embedding is Some ==> plan.rows[0].embedding == embedding
            &&& embedding is None ==> plan.rows[0].embedding == stored
        }),
{
}

/// A version that gives way is closed and keeps its text; the new one takes over when the writer
/// says, where that is after every start of the old ones, and else when it was recorded, but never
/// at or before such a start. The first of those it replaces is the one it names.
pub proof fn law_new_versions_take_over_when_asked(
    config: PlanConfig,
    input: InputView,
    embedding: Option<Seq<u32>>,
    actives: Seq<MemoryView>,
    stored: Option<Seq<u32>>,
    fresh: MemoryView,
    now: i128,
    latest: i128,
)
    requires
        !config.contradiction_review,
        actives.len() > 0,
        trimmed(actives[0].content) != trimmed(input.content),
        latest <= i128::MAX - 1000,
        exists|i: int| 0 <= i < actives.len() && (#[trigger] actives[i]).valid_from == latest,
        forall|i: int| 0 <= i < actives.len() ==> (#[trigger] actives[i]).valid_from <= latest,
    ensures
        ({
            let found = FoundView::Subject { actives, stored };
            let plan = planned(config, input, embedding, found, fresh, now);
            let at = plan.memory.valid_from;
            let asked = if input.valid_from is Some {
                input.valid_from->0
            } else {
                now
            };
            &&& at > latest
            &&& asked > latest ==> at == asked
            &&& asked <= latest && now >= latest + 1000 ==> at == now
            &&& asked <= latest && now < latest + 1000 ==> at == latest + 1000
            &&& plan.memory.supersedes == Some(actives[0].id)
            &&& plan.rows.len() == actives.len() + 1
            &&& forall|i: int|
                0 <= i < actives.len() ==> (#[trigger] plan.rows[i]).embedding is None
                    && plan.rows[i].memory == (MemoryView {
                    state: MemoryState::Superseded,
                    valid_to: Some(at),
                    updated_at: now,
                    ..actives[i]
                })
        }),
{
    lemma_latest_start(actives);
    let i = choose|i: int|
        0 <= i < actives.len() && (#[trigger] actives[i]).valid_from == latest_start(actives);
    assert(actives[i].valid_from <= latest);
    let k = choose|k: int| 0 <= k < actives.len() && (#[trigger] actives[k]).valid_from == latest;
    assert(actives[k].valid_from <= latest_start(actives));
    let found = FoundView::Subject { actives, stored };
    let plan = planned(config, input, embedding, found, fresh, now);
    let at = plan.memory.valid_from;
    assert forall|i: int| 0 <= i < actives.len() implies (#[trigger] plan.rows[i]).embedding is None
        && plan.rows[i].memory == (MemoryView {
        state: MemoryState::Superseded,
        valid_to: Some(at),
        updated_at: now,
        ..actives[i]
    }) by {
        assert(plan.rows[i] == closed_rows(actives, at, now)[i]);
    }
}

/// A merge carries on what the two memories have in common: the subject of the old one, its project
/// where the writer names none, the larger weight, and the evidence of both, the old one's first and
/// nothing twice that was not twice before. The old one is closed where the new one begins, and
/// keeps its text.
pub proof fn law_merges_carry_on_what_was_known(
    config: PlanConfig,
    input: InputView,
    embedding: Option<Seq<u32>>,
    top: HitView,
    fresh: MemoryView,
    now: i128,
)
    requires
        at_least(top.score, config.dedup_threshold),
        top.memory.valid_from <= i128::MAX - 1000,
    ensures
        ({
            let found = FoundView::Nearest { hit: Some(top) };
            let plan = planned(config, input, embedding, found, fresh, now);
            let old = top.memory;
            let m = plan.memory;
            let said = if input.importance is Some {
                input.importance->0
            } else {
                config.default_importance
            };
            let asked = if input.valid_from is Some {
                input.valid_from->0
            } else {
                now
            };
            let n = old.source_event_ids.len() as int;
            &&& m.subject == old.subject
            &&& m.project == (if input.project is Some {
                input.project
            } else {
                old.project
            })
            &&& m.supersedes == Some(old.id)
            &&& m.importance == said || m.importance == old.importance
            &&& !nan(old.importance) ==> !nan(m.importance) && order(m.importance) >= order(
                old.importance,
            )
            &&& !nan(said) ==> !nan(m.importance) && order(m.importance) >= order(said)
            &&& m.source_event_ids.len() >= n && m.source_event_ids.take(n) == old.source_event_ids
            &&& forall|id: u128| #[trigger]
                m.source_event_ids.contains(id) <==> old.source_event_ids.contains(id)
                    || input.source_event_ids.contains(id)
            &&& old.source_event_ids.no_duplicates() ==> m.source_event_ids.no_duplicates()
            &&& m.valid_from > old.valid_from
            &&& asked > old.valid_from ==> m.valid_from == asked
            &&& asked <= old.valid_from && now >= old.valid_from + 1000 ==> m.valid_from == now
            &&& asked <= old.valid_from && now < old.valid_from + 1000 ==> m.valid_from
                == old.valid_from + 1000
            &&& plan.rows.len() == 2
            &&& plan.rows[0].embedding is None
            &&& plan.rows[0].memory == (MemoryView {
                state: MemoryState::Superseded,
                valid_to: Some(m.valid_from),
                updated_at: now,
                ..old
            })
            &&& plan.rows[1].memory == m
        }),
{
    let a = top.memory.source_event_ids;
    let b = input.source_event_ids;
    lemma_joined_ids_extend(a, b);
    assert forall|id: u128| #[trigger]
        joined_ids(a, b).contains(id) <==> a.contains(id) || b.contains(id) by {
        lemma_joined_ids(a, b, id);
    }
}

/// Where contradictions are left to a person, what was there is not touched: the only row is the
/// new memory's, and it is active beside the others.
pub proof fn law_review_leaves_the_old_version(
    config: PlanConfig,
    input: InputView,
    embedding: Option<Seq<u32>>,
    actives: Seq<MemoryView>,
    stored: Option<Seq<u32>>,
    fresh: MemoryView,
    now: i128,
)
    requires
        config.contradiction_review,
        actives.len() > 0,
        !same_content(actives[0].content, input.content),
    ensures
        ({
            let found = FoundView::Subject { actives, stored };
            let plan = planned(config, input, embedding, found, fresh, now);
            &&& plan.outcome == MemoryOutcome::Conflict
            &&& plan.rows.len() == 1
            &&& plan.rows[0].memory == plan.memory
            &&& plan.memory.id == fresh.id
            &&& plan.memory.state == fresh.state
        }),
{
}

// ── The timeline of a subject ────────────────────────────────────────────────────────

/// Did a version give way to the next: where that begins, and after it began itself?
pub open spec fn gave_way(old: MemoryView, next: MemoryView) -> bool {
    &&& old.state == MemoryState::Superseded
    &&& old.valid_to == Some(next.valid_from)
    &&& old.valid_from < next.valid_from
}

/// The versions of a subject, the oldest first: each gave way to the next, and the last one is
/// open. It alone is active.
pub open spec fn timeline(versions: Seq<MemoryView>) -> bool {
    &&& forall|i: int, j: int|
        0 <= i < versions.len() && j == i + 1 && j < versions.len() ==> gave_way(
            #[trigger] versions[i],
            #[trigger] versions[j],
        )
    &&& versions.len() > 0 ==> versions.last().state == MemoryState::Active
        && versions.last().valid_to is None
    &&& forall|i: int, j: int|
        0 <= i < j < versions.len() ==> (#[trigger] versions[i]).id != (#[trigger] versions[j]).id
}

/// The versions after a row is written: it takes the place of the version with its id, or comes
/// last.
pub open spec fn written(versions: Seq<MemoryView>, m: MemoryView) -> Seq<MemoryView> {
    if exists|i: int| 0 <= i < versions.len() && (#[trigger] versions[i]).id == m.id {
        versions.update(
            choose|i: int| 0 <= i < versions.len() && (#[trigger] versions[i]).id == m.id,
            m,
        )
    } else {
        versions.push(m)
    }
}

pub open spec fn all_written(versions: Seq<MemoryView>, rows: Seq<RowView>) -> Seq<MemoryView>
    decreases rows.len(),
{
    if rows.len() == 0 {
        versions
    } else {
        written(all_written(versions, rows.drop_last()), rows.last().memory)
    }
}

/// What is found of a subject: the version that is active.
pub open spec fn active_of(versions: Seq<MemoryView>) -> Seq<MemoryView> {
    if versions.len() == 0 {
        seq![]
    } else {
        seq![versions.last()]
    }
}

proof fn lemma_starts_ascend(versions: Seq<MemoryView>, i: int, j: int)
    requires
        timeline(versions),
        0 <= i <= j < versions.len(),
    ensures
        versions[i].valid_from <= versions[j].valid_from,
    decreases j - i,
{
    if i < j {
        lemma_starts_ascend(versions, i, j - 1);
        assert(gave_way(versions[j - 1], versions[j]));
    }
}

proof fn lemma_written_last(versions: Seq<MemoryView>, m: MemoryView)
    requires
        timeline(versions),
        versions.len() > 0,
        m.id == versions.last().id,
    ensures
        written(versions, m) == versions.drop_last().push(m),
{
    let n = versions.len() - 1;
    assert(versions[n].id == m.id);
    let i = choose|i: int| 0 <= i < versions.len() && (#[trigger] versions[i]).id == m.id;
    assert(i == n) by {
        if i < n {
            assert(versions[i].id != versions[n].id);
        }
    }
    assert(versions.update(n, m) =~= versions.drop_last().push(m));
}

/// Whatever is written about a subject, its timeline stays whole, and what was written is its last
/// version: one memory is active, and the others have ended in turn.
pub proof fn law_writes_keep_the_timeline(
    config: PlanConfig,
    input: InputView,
    embedding: Option<Seq<u32>>,
    versions: Seq<MemoryView>,
    stored: Option<Seq<u32>>,
    fresh: MemoryView,
    now: i128,
)
    requires
        timeline(versions),
        !config.contradiction_review,
        versions.len() > 0 ==> versions.last().valid_from <= i128::MAX - 1000,
        fresh.state == MemoryState::Active,
        fresh.valid_to is None,
        forall|i: int| 0 <= i < versions.len() ==> (#[trigger] versions[i]).id != fresh.id,
    ensures
        ({
            let found = FoundView::Subject { actives: active_of(versions), stored };
            let plan = planned(config, input, embedding, found, fresh, now);
            let after = all_written(versions, plan.rows);
            &&& timeline(after)
            &&& after.len() > 0
            &&& after.last() == plan.memory
        }),
{
    let found = FoundView::Subject { actives: active_of(versions), stored };
    let plan = planned(config, input, embedding, found, fresh, now);
    let rows = plan.rows;
    let after = all_written(versions, rows);
    reveal_with_fuel(all_written, 3);
    if versions.len() == 0 {
        assert(rows.drop_last() =~= seq![]);
        assert(after =~= seq![plan.memory]);
    } else if same_content(versions.last().content, input.content) {
        assert(rows.drop_last() =~= seq![]);
        lemma_written_last(versions, plan.memory);
        assert(after =~= versions.drop_last().push(plan.memory));
        assert forall|i: int, j: int|
            0 <= i < after.len() && j == i + 1 && j < after.len() implies gave_way(
            #[trigger] after[i],
            #[trigger] after[j],
        ) by {
            assert(gave_way(versions[i], versions[j]));
        }
        assert forall|i: int, j: int| 0 <= i < j < after.len() implies (#[trigger] after[i]).id != (
        #[trigger] after[j]).id by {
            assert(versions[i].id != versions[j].id);
        }
    } else {
        let actives = active_of(versions);
        let at = boundary(input.valid_from, Some(latest_start(actives)), now) as i128;
        let closed = closed_at(versions.last(), at, now);
        assert(closed_rows(actives, at, now)[0].memory == closed);
        assert(rows.drop_last() =~= closed_rows(actives, at, now));
        assert(rows.drop_last().drop_last() =~= seq![]);
        assert(rows.drop_last().last().memory == closed);
        lemma_written_last(versions, closed);
        let middle = versions.drop_last().push(closed);
        assert(all_written(versions, rows.drop_last()) == middle);
        assert forall|i: int| 0 <= i < middle.len() implies (#[trigger] middle[i]).id
            != plan.memory.id by {
            assert(versions[i].id != fresh.id);
        }
        assert(after == middle.push(plan.memory));
        assert forall|i: int, j: int|
            0 <= i < after.len() && j == i + 1 && j < after.len() implies gave_way(
            #[trigger] after[i],
            #[trigger] after[j],
        ) by {
            if j < versions.len() {
                assert(gave_way(versions[i], versions[j]));
            }
        }
        assert forall|i: int, j: int| 0 <= i < j < after.len() implies (#[trigger] after[i]).id != (
        #[trigger] after[j]).id by {
            if j < middle.len() {
                assert(versions[i].id != versions[j].id);
            } else {
                assert(middle[i].id != plan.memory.id);
            }
        }
    }
}

/// At every instant since a subject was first known, exactly one of its versions holds, and before
/// that none does.
pub proof fn law_one_version_holds_at_a_time(versions: Seq<MemoryView>, t: i128)
    requires
        timeline(versions),
        versions.len() > 0,
    ensures
        (t >= versions[0].valid_from) <==> exists|i: int|
            0 <= i < versions.len() && holds_at(#[trigger] versions[i], t),
        forall|i: int, j: int|
            0 <= i < versions.len() && 0 <= j < versions.len() && holds_at(
                #[trigger] versions[i],
                t,
            ) && holds_at(#[trigger] versions[j], t) ==> i == j,
{
    if t >= versions[0].valid_from {
        lemma_some_version_holds(versions, t, versions.len() - 1);
    }
    assert forall|i: int| 0 <= i < versions.len() && holds_at(#[trigger] versions[i], t) implies t
        >= versions[0].valid_from by {
        lemma_starts_ascend(versions, 0, i);
    }
    assert forall|i: int, j: int|
        0 <= i < versions.len() && 0 <= j < versions.len() && holds_at(#[trigger] versions[i], t)
            && holds_at(#[trigger] versions[j], t) implies i == j by {
        if i < j {
            assert(gave_way(versions[i], versions[i + 1]));
            lemma_starts_ascend(versions, i + 1, j);
        }
        if j < i {
            assert(gave_way(versions[j], versions[j + 1]));
            lemma_starts_ascend(versions, j + 1, i);
        }
    }
}

proof fn lemma_some_version_holds(versions: Seq<MemoryView>, t: i128, n: int)
    requires
        timeline(versions),
        0 <= n < versions.len(),
        versions[0].valid_from <= t,
        n == versions.len() - 1 || t < versions[n + 1].valid_from,
    ensures
        exists|i: int| 0 <= i < versions.len() && holds_at(#[trigger] versions[i], t),
    decreases n,
{
    if versions[n].valid_from <= t {
        if n < versions.len() - 1 {
            assert(gave_way(versions[n], versions[n + 1]));
        }
        assert(holds_at(versions[n], t));
    } else {
        lemma_some_version_holds(versions, t, n - 1);
    }
}

// ── Evidence ─────────────────────────────────────────────────────────────────────────

/// Joining keeps every id, and adds none that was in neither list.
pub proof fn lemma_joined_ids(a: Seq<u128>, b: Seq<u128>, id: u128)
    ensures
        joined_ids(a, b).contains(id) <==> a.contains(id) || b.contains(id),
    decreases b.len(),
{
    if b.len() > 0 {
        let rest = b.drop_last();
        let before = joined_ids(a, rest);
        lemma_joined_ids(a, rest, id);
        assert(b =~= rest.push(b.last()));
        assert(b.contains(id) <==> rest.contains(id) || id == b.last()) by {
            if rest.contains(id) {
                let k = choose|k: int| 0 <= k < rest.len() && rest[k] == id;
                assert(b[k] == id);
            }
            if id == b.last() {
                assert(b[b.len() - 1] == id);
            }
        }
        if !before.contains(b.last()) {
            let after = before.push(b.last());
            assert(after.contains(id) <==> before.contains(id) || id == b.last()) by {
                if before.contains(id) {
                    let k = choose|k: int| 0 <= k < before.len() && before[k] == id;
                    assert(after[k] == id);
                }
                if id == b.last() {
                    assert(after[before.len() as int] == id);
                }
            }
        }
    }
}

/// Joining leaves what was there in its place, and repeats nothing.
proof fn lemma_joined_ids_extend(a: Seq<u128>, b: Seq<u128>)
    ensures
        joined_ids(a, b).len() >= a.len(),
        joined_ids(a, b).take(a.len() as int) == a,
        a.no_duplicates() ==> joined_ids(a, b).no_duplicates(),
    decreases b.len(),
{
    let n = a.len() as int;
    if b.len() == 0 {
        assert(a.take(n) =~= a);
    } else {
        let before = joined_ids(a, b.drop_last());
        lemma_joined_ids_extend(a, b.drop_last());
        let after = joined_ids(a, b);
        assert(after.take(n) =~= before.take(n));
        if a.no_duplicates() && !before.contains(b.last()) {
            assert forall|i: int, j: int|
                0 <= i < after.len() && 0 <= j < after.len() && i != j implies after[i]
                != after[j] by {
                if i < before.len() {
                    assert(before.contains(before[i]));
                }
                if j < before.len() {
                    assert(before.contains(before[j]));
                }
            }
        }
    }
}

/// What supported the old memory and what supports the new one supports what they are merged into,
/// and nothing else does.
pub proof fn law_evidence_survives_a_merge(
    input: InputView,
    importance: Score,
    embedding: Option<Seq<u32>>,
    top: MemoryView,
    fresh: MemoryView,
    now: i128,
    id: u128,
)
    ensures
        merging(input, importance, embedding, top, fresh, now).memory.source_event_ids.contains(id)
            <==> top.source_event_ids.contains(id) || input.source_event_ids.contains(id),
{
    lemma_joined_ids(top.source_event_ids, input.source_event_ids, id);
}

/// A memory starts out active, in its first version and of middling importance; it holds from now on,
/// replaces nothing, and says nothing but its content.
pub proof fn law_memories_start_out_active(
    id: u128,
    scope: ScopeView,
    content: Seq<char>,
    now: i128,
    t: i128,
)
    ensures
        ({
            let m = new_memory(id, scope, content, now);
            &&& m.id == id && m.scope == scope && m.content == content
            &&& m.state == MemoryState::Active && m.version == 1 && m.supersedes is None
            &&& m.mem_type == "semantic"@ && m.importance.bits == 0x3f00_0000
            &&& m.created_at == now && m.updated_at == now
            &&& holds_at(m, t) <==> now <= t
            &&& m.subject is None && m.project is None && m.source_event_ids.len() == 0
            &&& m.metadata == JsonView::Object(seq![])
        }),
{
}

} // verus!
