//! What a decision of a person comes to, and what it leaves alone.

use vstd::prelude::*;

use crate::engine::review::{
    about, accepted, corrected, corrected_vector, grouped, has_fact, judged, lost_to, of_fact,
    open_proposal, proposed, resolved, retired, reviewed, says_otherwise, verdict_named, Fact,
    FeedbackView, GroupView, MemoryFeedback, MemoryPatchView,
};
use crate::ids::uuid_notation;
use crate::json::{lemma_with_field, with_field, JsonView};
use crate::memory::cognition::{InputView, MemoryState, MemoryView, RowView};
use crate::score::{clamped, nan, order, Score};
use crate::text::{earlier, lemma_earlier_total, trimmed};

verus! {

// ── Contradictions ───────────────────────────────────────────────────────────────────

/// Two active memories of one subject in one project are a contradiction, and are shown as one: both
/// are in the group of their subject and project.
pub proof fn law_contradictions_are_shown(
    ms: Seq<MemoryView>,
    groups: Seq<GroupView>,
    subject: Seq<char>,
    project: Option<Seq<char>>,
    i: int,
    j: int,
)
    requires
        grouped(ms, groups, 1),
        0 <= i < j < ms.len(),
        ms[i].subject == Some(subject) && ms[j].subject == Some(subject),
        ms[i].project == project && ms[j].project == project,
    ensures
        exists|g: int|
            0 <= g < groups.len() && (#[trigger] groups[g]).fact == (subject, project)
                && groups[g].memories.contains(ms[i]) && groups[g].memories.contains(ms[j]),
{
    let fact: Fact = (subject, project);
    let p = |m: MemoryView| about(m, fact);
    lemma_two_are_kept(ms, p, i, j);
    assert(of_fact(ms, fact).len() > 1);
    assert(has_fact(groups, fact));
    let g = choose|g: int| 0 <= g < groups.len() && (#[trigger] groups[g]).fact == fact;
    assert(groups[g].memories == of_fact(ms, fact));
}

proof fn lemma_two_are_kept(ms: Seq<MemoryView>, p: spec_fn(MemoryView) -> bool, i: int, j: int)
    requires
        0 <= i < j < ms.len(),
        p(ms[i]),
        p(ms[j]),
    ensures
        ms.filter(p).len() > 1,
        ms.filter(p).contains(ms[i]),
        ms.filter(p).contains(ms[j]),
    decreases ms.len(),
{
    reveal(Seq::filter);
    ms.lemma_filter_contains(p, i);
    ms.lemma_filter_contains(p, j);
    let rest = ms.drop_last();
    if j < rest.len() {
        assert(rest[i] == ms[i] && rest[j] == ms[j]);
        lemma_two_are_kept(rest, p, i, j);
    } else {
        assert(rest[i] == ms[i]);
        rest.lemma_filter_contains(p, i);
        let k = choose|k: int| 0 <= k < rest.filter(p).len() && rest.filter(p)[k] == rest[i];
        assert(rest.filter(p).len() > 0);
    }
}

/// What is shown as a contradiction is one: a group has at least two memories, all of them active
/// ones that were handed in, of its subject and of its project. No two groups are of the same.
pub proof fn law_what_is_shown_contradicts(
    ms: Seq<MemoryView>,
    groups: Seq<GroupView>,
    g: int,
    m: MemoryView,
)
    requires
        grouped(ms, groups, 1),
        0 <= g < groups.len(),
    ensures
        groups[g].memories.len() >= 2,
        groups[g].memories.contains(m) <==> ms.contains(m) && m.subject == Some(groups[g].fact.0)
            && m.project == groups[g].fact.1,
{
    let fact = groups[g].fact;
    let p = |m: MemoryView| about(m, fact);
    let kept = ms.filter(p);
    assert(groups[g].memories == of_fact(ms, fact));
    if kept.contains(m) {
        let k = choose|k: int| 0 <= k < kept.len() && kept[k] == m;
        ms.lemma_filter_pred(p, k);
        ms.lemma_filter_contains_rev(p, m);
    }
    if ms.contains(m) && p(m) {
        let k = choose|k: int| 0 <= k < ms.len() && ms[k] == m;
        ms.lemma_filter_contains(p, k);
    }
}

/// Where two texts first differ decides which comes earlier.
proof fn lemma_first_difference(a: Seq<char>, b: Seq<char>, k: int)
    requires
        0 <= k <= a.len(),
        k <= b.len(),
        forall|i: int| 0 <= i < k ==> #[trigger] a[i] == b[i],
    ensures
        k < a.len() && k < b.len() && a[k] != b[k] ==> (earlier(a, b) <==> a[k] < b[k]),
        k == a.len() ==> (earlier(a, b) <==> k < b.len()),
    decreases k,
{
    if k > 0 {
        assert(a[0] == b[0]);
        let x = a.drop_first();
        let y = b.drop_first();
        assert forall|i: int| 0 <= i < k - 1 implies #[trigger] x[i] == y[i] by {
            assert(a[i + 1] == b[i + 1]);
        }
        lemma_first_difference(x, y, k - 1);
    }
}

/// Contradictions come in the order of their subjects: where the subjects of an earlier and a later
/// group first differ, the earlier has the smaller character or ends. Of one subject, the group
/// without a project comes first.
pub proof fn law_contradictions_come_in_order(
    ms: Seq<MemoryView>,
    groups: Seq<GroupView>,
    least: nat,
    i: int,
    j: int,
    k: int,
)
    requires
        grouped(ms, groups, least),
        0 <= i < j < groups.len(),
        0 <= k <= groups[i].fact.0.len(),
        k <= groups[j].fact.0.len(),
        forall|n: int|
            0 <= n < k ==> #[trigger] groups[i].fact.0[n] == groups[j].fact.0[n],
    ensures
        groups[i].fact != groups[j].fact,
        k < groups[i].fact.0.len() ==> k < groups[j].fact.0.len(),
        k < groups[i].fact.0.len() && groups[i].fact.0[k] != groups[j].fact.0[k]
            ==> groups[i].fact.0[k] < groups[j].fact.0[k],
        groups[i].fact.0 == groups[j].fact.0 ==> groups[j].fact.1 is Some,
{
    let a = groups[i].fact;
    let b = groups[j].fact;
    lemma_first_difference(a.0, b.0, k);
    lemma_earlier_total(a.0, b.0);
    if a.1 is Some && b.1 is Some {
        lemma_earlier_total(a.1->0, b.1->0);
    }
    if k == b.0.len() {
        assert forall|n: int| 0 <= n < k implies #[trigger] b.0[n] == a.0[n] by {
            assert(a.0[n] == b.0[n]);
        }
        lemma_first_difference(b.0, a.0, k);
    }
}

/// A contradiction can be resolved by any of its memories and by no other. The one that is kept is
/// not touched; every other one is closed now, keeps what it said, and names the one it lost to.
pub proof fn law_resolving_keeps_the_chosen_one(
    actives: Seq<MemoryView>,
    subject: Seq<char>,
    keep: u128,
    now: i128,
    row: RowView,
)
    ensures
        resolved(actives, subject, keep, now) is Ok <==> exists|i: int|
            0 <= i < actives.len() && (#[trigger] actives[i]).id == keep,
        resolved(actives, subject, keep, now) is Ok ==> {
            let rows = resolved(actives, subject, keep, now)->Ok_0;
            rows.contains(row) <==> exists|i: int|
                0 <= i < actives.len() && (#[trigger] actives[i]).id != keep && row == (RowView {
                    memory: MemoryView {
                        state: MemoryState::Superseded,
                        valid_to: Some(now),
                        updated_at: now,
                        supersedes: Some(keep),
                        ..actives[i]
                    },
                    embedding: None,
                })
        },
{
    let p = |m: MemoryView| m.id != keep;
    let f = |m: MemoryView| lost_to(m, keep, now);
    let losers = actives.filter(p);
    let rows = losers.map_values(f);
    if rows.contains(row) {
        let k = choose|k: int| 0 <= k < rows.len() && rows[k] == row;
        actives.lemma_filter_pred(p, k);
        actives.lemma_filter_contains_rev(p, losers[k]);
        let i = choose|i: int| 0 <= i < actives.len() && actives[i] == losers[k];
        assert(actives[i].id != keep);
        assert(row == lost_to(actives[i], keep, now));
    }
    assert forall|i: int|
        0 <= i < actives.len() && (#[trigger] actives[i]).id != keep && row == lost_to(
            actives[i],
            keep,
            now,
        ) implies rows.contains(row) by {
        actives.lemma_filter_contains(p, i);
        let k = choose|k: int| 0 <= k < losers.len() && losers[k] == actives[i];
        assert(rows[k] == row);
    }
}

// ── Feedback ─────────────────────────────────────────────────────────────────────────

/// What is called wrong or obsolete is retired, it and no other memory, and is not rewritten. What
/// helped is retired by no means: one row of the same memory is written, in its state, with the
/// raised importance and its vector, and all that it says is kept.
pub proof fn law_feedback_retires_or_reinforces_the_judged(
    m: MemoryView,
    verdict: MemoryFeedback,
    raised: Score,
    embedding: Option<Seq<u32>>,
    now: i128,
)
    ensures
        ({
            let (after, action) = judged(m, verdict, raised, embedding, now);
            &&& verdict != MemoryFeedback::Helpful ==> after == m && action is Retire
                && action->Retire_0.len() == 1 && action->Retire_0[0] == m.id
            &&& verdict == MemoryFeedback::Helpful ==> {
                &&& action is Reinforce
                &&& action->Reinforce_0.len() == 1
                &&& action->Reinforce_0[0].memory == after
                &&& action->Reinforce_0[0].embedding == embedding
                &&& after == (MemoryView {
                    importance: raised,
                    version: (m.version + 1) as u64,
                    updated_at: now,
                    ..m
                })
            }
        }),
{
}

/// The words that a verdict can be given in; any other says nothing.
pub proof fn law_verdicts_have_their_words(s: Seq<char>)
    ensures
        verdict_named(s) == Some(MemoryFeedback::Helpful) <==> s == "helpful"@ || s == "useful"@
            || s == "up"@,
        verdict_named(s) == Some(MemoryFeedback::Wrong) <==> s == "wrong"@ || s == "incorrect"@ || s
            == "down"@,
        verdict_named(s) == Some(MemoryFeedback::Obsolete) <==> s == "obsolete"@ || s == "stale"@
            || s == "outdated"@,
{
    reveal_strlit("helpful");
    reveal_strlit("useful");
    reveal_strlit("up");
    reveal_strlit("wrong");
    reveal_strlit("incorrect");
    reveal_strlit("down");
    reveal_strlit("obsolete");
    reveal_strlit("stale");
    reveal_strlit("outdated");
    if s.len() > 0 {
        assert("helpful"@[0] == 'h' && "useful"@[0] == 'u' && "up"@[0] == 'u');
        assert("wrong"@[0] == 'w' && "incorrect"@[0] == 'i' && "down"@[0] == 'd');
        assert("obsolete"@[0] == 'o' && "stale"@[0] == 's' && "outdated"@[0] == 'o');
    }
}

// ── Proposals ────────────────────────────────────────────────────────────────────────

/// A number that is held between zero and one is, and one that was there stays as it is.
pub proof fn law_clamping_holds_within_bounds(s: Score)
    ensures
        !nan(s) ==> !nan(clamped(s)) && 0 <= order(clamped(s)) <= 0x3f80_0000,
        !nan(s) && 0 <= order(s) <= 0x3f80_0000 ==> clamped(s) == s,
        !nan(s) && order(s) > 0x3f80_0000 ==> order(clamped(s)) == 0x3f80_0000,
        nan(s) ==> clamped(s) == s,
{
}

/// A proposal says what the input says, and is pending: it replaces nothing, and is not believed.
pub proof fn law_proposals_say_what_was_proposed(input: InputView, id: u128, now: i128)
    ensures
        ({
            let m = proposed(input, id, now);
            &&& m.id == id && m.scope == input.scope && m.subject == input.subject
            &&& m.content == input.content && m.metadata == input.metadata
            &&& m.source_event_ids == input.source_event_ids && m.project == input.project
            &&& m.mem_type == (if input.mem_type is Some {
                input.mem_type->0
            } else {
                "semantic"@
            })
            &&& m.importance == clamped(
                if input.importance is Some {
                    input.importance->0
                } else {
                    Score { bits: 0x3f00_0000 }
                },
            )
            &&& m.valid_from == (if input.valid_from is Some {
                input.valid_from->0
            } else {
                now
            })
            &&& m.state == MemoryState::Pending && m.version == 1
            &&& m.supersedes is None && m.valid_to is None
            &&& m.created_at == now && m.updated_at == now
            &&& open_proposal(Some(m)) == Some(m)
        }),
{
}

/// Only a pending memory is an open proposal.
pub proof fn law_only_pending_memories_are_open(found: Option<MemoryView>)
    ensures
        open_proposal(found) is Some <==> found is Some && found->0.state == MemoryState::Pending,
        open_proposal(found) is Some ==> open_proposal(found) == found,
{
}

/// An accepted proposal is written with all that it says: nothing of it is dropped on the way.
pub proof fn law_accepting_drops_nothing(m: MemoryView)
    ensures
        ({
            let input = accepted(m);
            &&& input.scope == m.scope && input.subject == m.subject && input.content == m.content
            &&& input.importance == Some(m.importance) && input.mem_type == Some(m.mem_type)
            &&& input.valid_from == Some(m.valid_from) && input.project == m.project
            &&& input.source_event_ids == m.source_event_ids && input.metadata == m.metadata
        }),
{
}

proof fn lemma_review_names()
    ensures
        "review_decision"@ != "review_decided_at"@,
        "review_decision"@ != "review_accepted_as"@,
        "review_decided_at"@ != "review_accepted_as"@,
{
    reveal_strlit("review_decision");
    reveal_strlit("review_decided_at");
    reveal_strlit("review_accepted_as");
    assert("review_decision"@.len() == 15 && "review_decided_at"@.len() == 17
        && "review_accepted_as"@.len() == 18);
}

/// A decided proposal is kept as it was, expired, and its metadata say what was decided, when, and
/// what it was accepted as; what they said before they still say.
pub proof fn law_decisions_are_kept_with_the_proposal(
    m: MemoryView,
    decision: Seq<char>,
    at: Seq<char>,
    accepted_as: Option<u128>,
    now: i128,
    name: Seq<char>,
)
    ensures
        ({
            let after = retired(m, decision, at, accepted_as, now);
            &&& after == (MemoryView {
                state: MemoryState::Expired,
                valid_to: Some(now),
                updated_at: now,
                version: (m.version + 1) as u64,
                metadata: after.metadata,
                ..m
            })
            &&& m.metadata is Object ==> {
                &&& after.metadata.field("review_decision"@) == Some(JsonView::Str(decision))
                &&& after.metadata.field("review_decided_at"@) == Some(JsonView::Str(at))
                &&& accepted_as is Some ==> after.metadata.field("review_accepted_as"@) == Some(
                    JsonView::Str(uuid_notation(accepted_as->0)),
                )
                &&& name != "review_decision"@ && name != "review_decided_at"@ && (name
                    != "review_accepted_as"@ || accepted_as is None) ==> after.metadata.field(name)
                    == m.metadata.field(name)
            }
            &&& !(m.metadata is Object) ==> after.metadata == m.metadata
        }),
{
    if m.metadata is Object {
        let fields = m.metadata->Object_0;
        let d = "review_decision"@;
        let t = "review_decided_at"@;
        let a = "review_accepted_as"@;
        lemma_review_names();
        let one = with_field(fields, d, JsonView::Str(decision));
        let two = with_field(one, t, JsonView::Str(at));
        lemma_with_field(fields, d, JsonView::Str(decision), d);
        lemma_with_field(fields, d, JsonView::Str(decision), name);
        lemma_with_field(one, t, JsonView::Str(at), d);
        lemma_with_field(one, t, JsonView::Str(at), t);
        lemma_with_field(one, t, JsonView::Str(at), name);
        if let Some(id) = accepted_as {
            let v = JsonView::Str(uuid_notation(id));
            lemma_with_field(two, a, v, d);
            lemma_with_field(two, a, v, t);
            lemma_with_field(two, a, v, a);
            lemma_with_field(two, a, v, name);
        }
    }
}

// ── Corrections ──────────────────────────────────────────────────────────────────────

/// A correction changes what it names and nothing else: each part that is given is there, held
/// within bounds where it is a weight, and each that is not is as it was.
pub proof fn law_corrections_change_what_they_name(m: MemoryView, patch: MemoryPatchView, now: i128)
    ensures
        ({
            let after = corrected(m, patch, now);
            &&& after == (MemoryView {
                content: after.content,
                importance: after.importance,
                mem_type: after.mem_type,
                metadata: after.metadata,
                version: (m.version + 1) as u64,
                updated_at: now,
                ..m
            })
            &&& patch.content is Some ==> after.content == patch.content->0
            &&& patch.content is None ==> after.content == m.content
            &&& patch.importance is Some ==> after.importance == clamped(patch.importance->0)
            &&& patch.importance is None ==> after.importance == m.importance
            &&& patch.mem_type is Some ==> after.mem_type == patch.mem_type->0
            &&& patch.mem_type is None ==> after.mem_type == m.mem_type
            &&& patch.metadata is Some ==> after.metadata == patch.metadata->0
            &&& patch.metadata is None ==> after.metadata == m.metadata
        }),
{
}

/// The vector of a corrected memory is that of its text: where the text changed, it is the one that
/// was made anew, the stored one where that failed, and none where none can be made; where it did
/// not, the stored one is kept. White space around the text is no change.
pub proof fn law_vectors_follow_the_text(
    m: MemoryView,
    patch: MemoryPatchView,
    provider: bool,
    fresh: Option<Seq<u32>>,
    stored: Option<Seq<u32>>,
    now: i128,
)
    ensures
        ({
            let v = corrected_vector(says_otherwise(m, patch), provider, fresh, stored);
            let same = trimmed(corrected(m, patch, now).content) == trimmed(m.content);
            &&& same ==> v == stored
            &&& !same && provider && fresh is Some ==> v == fresh
            &&& !same && provider && fresh is None ==> v == stored
            &&& !same && !provider ==> v is None
        }),
{
}

} // verus!
