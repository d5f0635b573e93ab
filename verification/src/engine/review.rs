//! What people decide: contradictions, proposals, feedback and corrections.

use vstd::prelude::*;

use crate::engine::plan::{receive, same_content, governed, prepared, GovernanceRules};
use crate::error::{Error, ErrorView};
use crate::ids::{uuid_notation, uuid_text};
use crate::json;
use crate::json::{field_views, with_field, Json, JsonView};
use crate::memory::cognition::{
    copy_ids, copy_opt, memory_views, row_views, vector_view, InputView, Memory, MemoryInput,
    MemoryRow, MemoryState, MemoryView, RowView,
};
use crate::memory::event::{Event, EventView};
use crate::memory::facts::FactRules;
use crate::score::{clamped, Score};
use crate::seqs::{lemma_filter_none, lemma_filter_take};
use crate::text;
use crate::text::{earlier, lowered, opt_view};
use crate::time::{json_instant, json_text};

verus! {

broadcast use vstd::string::group_string_axioms;

// ── Contradictions ───────────────────────────────────────────────────────────────────

/// The active memories of one subject in one project, where there is more than one.
#[derive(Debug)]
pub struct ContradictionGroup {
    pub subject: String,
    pub project: Option<String>,
    pub memories: Vec<Memory>,
}

/// What a memory is about: its subject, and the project that it is of. One subject in two projects
/// is two facts.
pub type Fact = (Seq<char>, Option<Seq<char>>);

pub struct GroupView {
    pub fact: Fact,
    pub memories: Seq<MemoryView>,
}

impl View for ContradictionGroup {
    type V = GroupView;

    open spec fn view(&self) -> GroupView {
        GroupView {
            fact: (self.subject@, opt_view(self.project)),
            memories: memory_views(self.memories@),
        }
    }
}

pub open spec fn group_views(v: Seq<ContradictionGroup>) -> Seq<GroupView> {
    v.map_values(|g: ContradictionGroup| g@)
}

/// Is a memory about this?
pub open spec fn about(m: MemoryView, fact: Fact) -> bool {
    m.subject == Some(fact.0) && m.project == fact.1
}

/// The memories about something, in order.
pub open spec fn of_fact(ms: Seq<MemoryView>, fact: Fact) -> Seq<MemoryView> {
    ms.filter(|m: MemoryView| about(m, fact))
}

pub open spec fn has_fact(groups: Seq<GroupView>, fact: Fact) -> bool {
    exists|i: int| 0 <= i < groups.len() && (#[trigger] groups[i]).fact == fact
}

/// The order of facts: by subject, and those of one subject by project, without one first.
pub open spec fn fact_before(a: Fact, b: Fact) -> bool {
    ||| earlier(a.0, b.0)
    ||| a.0 == b.0 && match (a.1, b.1) {
        (Some(p), Some(q)) => earlier(p, q),
        (None, Some(_)) => true,
        _ => false,
    }
}

proof fn lemma_fact_before_total(a: Fact, b: Fact)
    ensures
        !(fact_before(a, b) && fact_before(b, a)),
        fact_before(a, b) || fact_before(b, a) <==> a != b,
{
    text::lemma_earlier_total(a.0, b.0);
    if a.1 is Some && b.1 is Some {
        text::lemma_earlier_total(a.1->0, b.1->0);
    }
}

proof fn lemma_fact_before_transitive(a: Fact, b: Fact, c: Fact)
    requires
        fact_before(a, b),
        fact_before(b, c),
    ensures
        fact_before(a, c),
{
    if earlier(a.0, b.0) && earlier(b.0, c.0) {
        text::lemma_earlier_transitive(a.0, b.0, c.0);
    }
    if a.1 is Some && b.1 is Some && c.1 is Some && earlier(a.1->0, b.1->0) && earlier(
        b.1->0,
        c.1->0,
    ) {
        text::lemma_earlier_transitive(a.1->0, b.1->0, c.1->0);
    }
}

fn is_before(group: &ContradictionGroup, subject: &str, project: &Option<String>) -> (r: bool)
    ensures
        r == fact_before(group@.fact, (subject@, opt_view(*project))),
{
    if text::same(group.subject.as_str(), subject) {
        proof {
            text::lemma_earlier_total(subject@, subject@);
        }
        match (&group.project, project) {
            (Some(p), Some(q)) => text::is_earlier(p.as_str(), q.as_str()),
            (None, Some(_)) => true,
            _ => false,
        }
    } else {
        text::is_earlier(group.subject.as_str(), subject)
    }
}

fn is_about(group: &ContradictionGroup, subject: &str, project: &Option<String>) -> (r: bool)
    ensures
        r == (group@.fact == (subject@, opt_view(*project))),
{
    text::same(group.subject.as_str(), subject) && match (&group.project, project) {
        (Some(p), Some(q)) => text::same(p.as_str(), q.as_str()),
        (None, None) => true,
        _ => false,
    }
}

/// Are the groups those of the facts with more than `least` memories, in order?
pub open spec fn grouped(ms: Seq<MemoryView>, groups: Seq<GroupView>, least: nat) -> bool {
    &&& forall|i: int, j: int|
        0 <= i < j < groups.len() ==> fact_before(
            (#[trigger] groups[i]).fact,
            (#[trigger] groups[j]).fact,
        )
    &&& forall|i: int|
        0 <= i < groups.len() ==> (#[trigger] groups[i]).memories == of_fact(
            ms,
            groups[i].fact,
        ) && groups[i].memories.len() > least
    &&& forall|s: Fact|
        #![trigger of_fact(ms, s)]
        of_fact(ms, s).len() > least ==> has_fact(groups, s)
}

/// The groups with one more memory, at its place.
spec fn joined_by(groups: Seq<GroupView>, at: int, s: Fact, m: MemoryView) -> Seq<GroupView> {
    if at < groups.len() && groups[at].fact == s {
        groups.update(at, GroupView { fact: s, memories: groups[at].memories.push(m) })
    } else {
        groups.insert(at, GroupView { fact: s, memories: seq![m] })
    }
}

proof fn lemma_of_fact_push(ms: Seq<MemoryView>, m: MemoryView, s: Fact)
    ensures
        of_fact(ms.push(m), s) == if about(m, s) {
            of_fact(ms, s).push(m)
        } else {
            of_fact(ms, s)
        },
{
    let p = |m: MemoryView| about(m, s);
    let all = ms.push(m);
    lemma_filter_take(all, p, ms.len() as int);
    assert(all.take(ms.len() as int) =~= ms);
    assert(all.take(ms.len() as int + 1) =~= all);
}

proof fn lemma_joined(ms: Seq<MemoryView>, groups: Seq<GroupView>, at: int, s: Fact, m: MemoryView)
    requires
        grouped(ms, groups, 0),
        about(m, s),
        0 <= at <= groups.len(),
        forall|i: int| 0 <= i < at ==> fact_before((#[trigger] groups[i]).fact, s),
        at < groups.len() ==> !fact_before(groups[at].fact, s),
    ensures
        grouped(ms.push(m), joined_by(groups, at, s, m), 0),
{
    let after = joined_by(groups, at, s, m);
    let all = ms.push(m);
    lemma_of_fact_push(ms, m, s);
    assert forall|x: Fact| x != s implies #[trigger] of_fact(all, x) == of_fact(
        ms,
        x,
    ) by {
        lemma_of_fact_push(ms, m, x);
    }
    let found = at < groups.len() && groups[at].fact == s;
    // No group has the subject but the one at its place.
    assert forall|i: int| 0 <= i < groups.len() && !(found && i == at) implies (
    #[trigger] groups[i]).fact != s by {
        lemma_fact_before_total(groups[i].fact, s);
        if i > at {
            assert(fact_before(groups[at].fact, groups[i].fact));
            lemma_fact_before_total(groups[at].fact, s);
        }
    }
    if !found && of_fact(ms, s).len() > 0 {
        assert(has_fact(groups, s));
        let i = choose|i: int| 0 <= i < groups.len() && (#[trigger] groups[i]).fact == s;
        assert(false);
    }
    assert(!found ==> of_fact(ms, s) =~= seq![]);
    if !found && at < groups.len() {
        lemma_fact_before_total(groups[at].fact, s);
    }
    assert forall|i: int, j: int| 0 <= i < j < after.len() implies fact_before(
        (#[trigger] after[i]).fact,
        (#[trigger] after[j]).fact,
    ) by {
        if found {
            assert(after[i].fact == groups[i].fact);
            assert(after[j].fact == groups[j].fact);
            assert(fact_before(groups[i].fact, groups[j].fact));
        } else {
            if i < at && j < at {
                assert(fact_before(groups[i].fact, groups[j].fact));
            } else if i < at && j == at {
                assert(after[i] == groups[i]);
            } else if i < at {
                assert(fact_before(groups[i].fact, groups[j - 1].fact));
            } else if i == at {
                assert(after[j] == groups[j - 1]);
                if j - 1 > at {
                    assert(fact_before(groups[at].fact, groups[j - 1].fact));
                    lemma_fact_before_transitive(s, groups[at].fact, groups[j - 1].fact);
                }
            } else {
                assert(fact_before(groups[i - 1].fact, groups[j - 1].fact));
            }
        }
    }
    assert forall|i: int| 0 <= i < after.len() implies (#[trigger] after[i]).memories == of_fact(
        all,
        after[i].fact,
    ) && after[i].memories.len() > 0 by {
        if found {
            if i != at {
                assert(after[i] == groups[i]);
            }
        } else if i < at {
            assert(after[i] == groups[i]);
        } else if i > at {
            assert(after[i] == groups[i - 1]);
        } else {
            assert(after[i].memories =~= of_fact(ms, s).push(m));
        }
    }
    assert forall|x: Fact|
        #![trigger of_fact(all, x)]
        of_fact(all, x).len() > 0 implies has_fact(after, x) by {
        if x == s {
            assert(after[at].fact == s);
        } else {
            assert(has_fact(groups, x));
            let i = choose|i: int| 0 <= i < groups.len() && (#[trigger] groups[i]).fact == x;
            if found || i < at {
                assert(after[i].fact == x);
            } else {
                assert(after[i + 1].fact == x);
            }
        }
    }
}

proof fn lemma_no_subject(ms: Seq<MemoryView>, groups: Seq<GroupView>, m: MemoryView)
    requires
        grouped(ms, groups, 0),
        m.subject is None,
    ensures
        grouped(ms.push(m), groups, 0),
{
    assert forall|x: Fact| #[trigger] of_fact(ms.push(m), x) == of_fact(ms, x) by {
        lemma_of_fact_push(ms, m, x);
    }
}

/// The memories about each fact, in the order of facts.
fn group_all(actives: &Vec<Memory>) -> (r: Vec<ContradictionGroup>)
    ensures
        grouped(memory_views(actives@), group_views(r@), 0),
{
    let ghost all = memory_views(actives@);
    let mut groups: Vec<ContradictionGroup> = Vec::new();
    let mut i: usize = 0;
    proof {
        assert(all.take(0) =~= seq![]);
        assert forall|s: Fact| (#[trigger] of_fact(all.take(0), s)).len() == 0 by {
            lemma_filter_none(all, |m: MemoryView| about(m, s));
        }
        assert(grouped(all.take(0), group_views(groups@), 0));
    }
    while i < actives.len()
        invariant
            i <= actives.len(),
            all == memory_views(actives@),
            grouped(all.take(i as int), group_views(groups@), 0),
        decreases actives.len() - i,
    {
        let ghost before = group_views(groups@);
        proof {
            assert(all.take(i + 1) =~= all.take(i as int).push(all[i as int]));
            assert(all[i as int] == actives@[i as int]@);
        }
        match &actives[i].subject {
            Some(s) => {
                let mut at: usize = 0;
                let project = copy_opt(&actives[i].project);
                let ghost fact: Fact = (s@, opt_view(project));
                while at < groups.len() && is_before(&groups[at], s.as_str(), &project)
                    invariant
                        at <= groups.len(),
                        before == group_views(groups@),
                        forall|k: int|
                            0 <= k < at ==> fact_before((#[trigger] before[k]).fact, fact),
                        fact == (s@, opt_view(project)),
                    decreases groups.len() - at,
                {
                    proof {
                        assert(before[at as int] == groups@[at as int]@);
                    }
                    at += 1;
                }
                proof {
                    if at < groups.len() {
                        assert(before[at as int] == groups@[at as int]@);
                    }
                    lemma_joined(all.take(i as int), before, at as int, fact, all[i as int]);
                }
                if at < groups.len() && is_about(&groups[at], s.as_str(), &project) {
                    let ghost old = groups@;
                    let mut g = groups.remove(at);
                    let ghost was = g.memories@;
                    g.memories.push(actives[i].copy());
                    let ghost v = g@;
                    proof {
                        assert(memory_views(g.memories@) =~= memory_views(was).push(
                            all[i as int],
                        ));
                    }
                    groups.insert(at, g);
                    proof {
                        assert(group_views(groups@) =~= before.update(at as int, v));
                        assert(group_views(groups@) =~= joined_by(
                            before,
                            at as int,
                            fact,
                            all[i as int],
                        ));
                    }
                } else {
                    let mut memories: Vec<Memory> = Vec::new();
                    memories.push(actives[i].copy());
                    proof {
                        assert(memory_views(memories@) =~= seq![all[i as int]]);
                    }
                    let g = ContradictionGroup { subject: s.clone(), project, memories };
                    let ghost v = g@;
                    groups.insert(at, g);
                    proof {
                        assert(group_views(groups@) =~= before.insert(at as int, v));
                        assert(group_views(groups@) =~= joined_by(
                            before,
                            at as int,
                            fact,
                            all[i as int],
                        ));
                    }
                }
            },
            None => {
                proof {
                    lemma_no_subject(all.take(i as int), before, all[i as int]);
                }
            },
        }
        i += 1;
    }
    proof {
        assert(all.take(all.len() as int) =~= all);
    }
    groups
}

/// The groups that are there, and which are left when those of one memory go.
proof fn lemma_large_groups(
    ms: Seq<MemoryView>,
    groups: Seq<GroupView>,
    kept: Seq<GroupView>,
    p: spec_fn(GroupView) -> bool,
)
    requires
        grouped(ms, groups, 0),
        p == |g: GroupView| g.memories.len() > 1,
        kept == groups.filter(p),
    ensures
        grouped(ms, kept, 1),
{
    broadcast use vstd::seq_lib::group_filter_ensures;

    lemma_filter_ordered(groups, p);
    assert forall|i: int| 0 <= i < kept.len() implies (#[trigger] kept[i]).memories == of_fact(
        ms,
        kept[i].fact,
    ) && kept[i].memories.len() > 1 by {
        groups.lemma_filter_pred(p, i);
        lemma_filter_from(groups, p, i);
    }
    assert forall|s: Fact|
        #![trigger of_fact(ms, s)]
        of_fact(ms, s).len() > 1 implies has_fact(kept, s) by {
        assert(has_fact(groups, s));
        let i = choose|i: int| 0 <= i < groups.len() && (#[trigger] groups[i]).fact == s;
        assert(p(groups[i]));
        groups.lemma_filter_contains(p, i);
        let k = choose|k: int| 0 <= k < kept.len() && kept[k] == groups[i];
        assert(kept[k].fact == s);
    }
}

proof fn lemma_filter_from(s: Seq<GroupView>, p: spec_fn(GroupView) -> bool, i: int)
    requires
        0 <= i < s.filter(p).len(),
    ensures
        exists|j: int| 0 <= j < s.len() && #[trigger] s[j] == s.filter(p)[i],
    decreases s.len(),
{
    reveal(Seq::filter);
    if s.len() > 0 {
        let rest = s.drop_last();
        if i < rest.filter(p).len() {
            lemma_filter_from(rest, p, i);
            let j = choose|j: int| 0 <= j < rest.len() && #[trigger] rest[j] == rest.filter(p)[i];
            assert(s[j] == rest[j]);
        } else {
            assert(s[s.len() - 1] == s.last());
        }
    }
}

proof fn lemma_filter_ordered(s: Seq<GroupView>, p: spec_fn(GroupView) -> bool)
    requires
        forall|i: int, j: int|
            0 <= i < j < s.len() ==> fact_before(
                (#[trigger] s[i]).fact,
                (#[trigger] s[j]).fact,
            ),
    ensures
        forall|i: int, j: int|
            0 <= i < j < s.filter(p).len() ==> fact_before(
                (#[trigger] s.filter(p)[i]).fact,
                (#[trigger] s.filter(p)[j]).fact,
            ),
    decreases s.len(),
{
    reveal(Seq::filter);
    if s.len() > 0 {
        let rest = s.drop_last();
        assert forall|i: int, j: int| 0 <= i < j < rest.len() implies fact_before(
            (#[trigger] rest[i]).fact,
            (#[trigger] rest[j]).fact,
        ) by {
            assert(rest[i] == s[i] && rest[j] == s[j]);
        }
        lemma_filter_ordered(rest, p);
        let out = s.filter(p);
        assert forall|i: int, j: int| 0 <= i < j < out.len() implies fact_before(
            (#[trigger] out[i]).fact,
            (#[trigger] out[j]).fact,
        ) by {
            if j < rest.filter(p).len() {
                assert(out[i] == rest.filter(p)[i] && out[j] == rest.filter(p)[j]);
            } else {
                lemma_filter_from(rest, p, i);
                let k = choose|k: int|
                    0 <= k < rest.len() && #[trigger] rest[k] == rest.filter(p)[i];
                assert(s[k] == rest[k]);
                assert(s[s.len() - 1] == s.last());
            }
        }
    }
}

/// The facts, each a subject in a project, of which more than one memory is active, in order, each
/// with its memories: what is left for people to resolve.
pub fn memory_contradictions(actives: &Vec<Memory>) -> (r: Vec<ContradictionGroup>)
    ensures
        grouped(memory_views(actives@), group_views(r@), 1),
{
    let groups = group_all(actives);
    let ghost all = group_views(groups@);
    let ghost p = |g: GroupView| g.memories.len() > 1;
    let mut out: Vec<ContradictionGroup> = Vec::new();
    let mut i: usize = 0;
    proof {
        lemma_filter_none(all, p);
        assert(group_views(out@) =~= all.take(0).filter(p));
    }
    while i < groups.len()
        invariant
            i <= groups.len(),
            all == group_views(groups@),
            p == |g: GroupView| g.memories.len() > 1,
            group_views(out@) == all.take(i as int).filter(p),
        decreases groups.len() - i,
    {
        let ghost before = out@;
        proof {
            lemma_filter_take(all, p, i as int);
            assert(all[i as int] == groups@[i as int]@);
        }
        if groups[i].memories.len() > 1 {
            let mut memories: Vec<Memory> = Vec::new();
            let mut k: usize = 0;
            proof {
                assert(memory_views(memories@) =~= memory_views(
                    groups@[i as int].memories@,
                ).take(0));
            }
            while k < groups[i].memories.len()
                invariant
                    i < groups.len(),
                    k <= groups@[i as int].memories@.len(),
                    memory_views(memories@) == memory_views(groups@[i as int].memories@).take(
                        k as int,
                    ),
                decreases groups@[i as int].memories@.len() - k,
            {
                let ghost was = memories@;
                memories.push(groups[i].memories[k].copy());
                k += 1;
                proof {
                    let v = memory_views(groups@[i as int].memories@);
                    assert(memory_views(memories@) =~= memory_views(was).push(v[k - 1]));
                    assert(v.take(k as int) =~= v.take(k - 1).push(v[k - 1]));
                }
            }
            let g = ContradictionGroup {
                subject: groups[i].subject.clone(),
                project: copy_opt(&groups[i].project),
                memories,
            };
            proof {
                let v = memory_views(groups@[i as int].memories@);
                assert(v.take(v.len() as int) =~= v);
                assert(g@ == all[i as int]);
            }
            out.push(g);
            proof {
                assert(group_views(out@) =~= group_views(before).push(all[i as int]));
            }
        }
        i += 1;
    }
    proof {
        assert(all.take(all.len() as int) =~= all);
        lemma_large_groups(memory_views(actives@), all, group_views(out@), p);
    }
    out
}

/// A memory that lost to the one that is kept.
pub open spec fn lost_to(m: MemoryView, keep: u128, now: i128) -> RowView {
    RowView {
        memory: MemoryView {
            state: MemoryState::Superseded,
            valid_to: Some(now),
            updated_at: now,
            supersedes: Some(keep),
            ..m
        },
        embedding: None,
    }
}

pub open spec fn resolved(
    actives: Seq<MemoryView>,
    subject: Seq<char>,
    keep: u128,
    now: i128,
) -> Result<Seq<RowView>, ErrorView> {
    if exists|i: int| 0 <= i < actives.len() && (#[trigger] actives[i]).id == keep {
        Ok(
            actives.filter(|m: MemoryView| m.id != keep).map_values(
                |m: MemoryView| lost_to(m, keep, now),
            ),
        )
    } else {
        Err(
            ErrorView::State(
                "keep_id "@ + uuid_notation(keep) + " is not an active memory for subject '"@
                    + subject + "' in this scope"@,
            ),
        )
    }
}

/// Resolves a contradiction: one memory is kept, and the other active ones of the subject are
/// closed. What is to be kept has to be one of them.
pub fn memory_resolve_plan(actives: &Vec<Memory>, subject: &str, keep: u128, now: i128) -> (r:
    Result<Vec<MemoryRow>, Error>)
    ensures
        match (r, resolved(memory_views(actives@), subject@, keep, now)) {
            (Ok(rows), Ok(expected)) => row_views(rows@) == expected,
            (Err(e), Err(expected)) => e@ == expected,
            _ => false,
        },
{
    let ghost all = memory_views(actives@);
    let ghost p = |m: MemoryView| m.id != keep;
    let ghost f = |m: MemoryView| lost_to(m, keep, now);
    let mut known = false;
    let mut out: Vec<MemoryRow> = Vec::new();
    let mut i: usize = 0;
    proof {
        lemma_filter_none(all, p);
        assert(row_views(out@) =~= all.take(0).filter(p).map_values(f));
    }
    while i < actives.len()
        invariant
            i <= actives.len(),
            all == memory_views(actives@),
            p == |m: MemoryView| m.id != keep,
            f == |m: MemoryView| lost_to(m, keep, now),
            known ==> exists|k: int| 0 <= k < all.len() && (#[trigger] all[k]).id == keep,
            !known ==> forall|k: int| 0 <= k < i ==> (#[trigger] all[k]).id != keep,
            row_views(out@) == all.take(i as int).filter(p).map_values(f),
        decreases actives.len() - i,
    {
        let ghost before = out@;
        proof {
            lemma_filter_take(all, p, i as int);
            assert(all[i as int] == actives@[i as int]@);
        }
        if actives[i].id == keep {
            known = true;
        } else {
            let mut m = actives[i].copy();
            m.state = MemoryState::Superseded;
            m.valid_to = Some(now);
            m.updated_at = now;
            m.supersedes = Some(keep);
            out.push(MemoryRow { memory: m, embedding: None });
            proof {
                let kept = all.take(i as int).filter(p);
                assert(row_views(out@) =~= row_views(before).push(
                    lost_to(all[i as int], keep, now),
                ));
                assert(kept.push(all[i as int]).map_values(f) =~= kept.map_values(f).push(
                    lost_to(all[i as int], keep, now),
                ));
            }
        }
        i += 1;
    }
    proof {
        assert(all.take(all.len() as int) =~= all);
    }
    if known {
        Ok(out)
    } else {
        Err(
            Error::State(
                text::cat5(
                    "keep_id ",
                    uuid_text(keep).as_str(),
                    " is not an active memory for subject '",
                    subject,
                    "' in this scope",
                ),
            ),
        )
    }
}

/// A resolved contradiction closes every memory of the subject but the one that is kept.
pub proof fn law_one_memory_is_left(
    actives: Seq<MemoryView>,
    subject: Seq<char>,
    keep: u128,
    now: i128,
    i: int,
)
    requires
        resolved(actives, subject, keep, now) is Ok,
        0 <= i < resolved(actives, subject, keep, now)->Ok_0.len(),
    ensures
        ({
            let row = resolved(actives, subject, keep, now)->Ok_0[i];
            &&& row.memory.state == MemoryState::Superseded
            &&& row.memory.id != keep
        }),
        forall|k: int|
            0 <= k < actives.len() && (#[trigger] actives[k]).id != keep ==> exists|j: int|
                0 <= j < resolved(actives, subject, keep, now)->Ok_0.len() && (
                #[trigger] resolved(actives, subject, keep, now)->Ok_0[j]).memory.id
                    == actives[k].id,
{
    let p = |m: MemoryView| m.id != keep;
    let losers = actives.filter(p);
    let rows = resolved(actives, subject, keep, now)->Ok_0;
    actives.lemma_filter_pred(p, i);
    assert(rows[i] == lost_to(losers[i], keep, now));
    assert(p(losers[i]));
    assert forall|k: int| 0 <= k < actives.len() && (#[trigger] actives[k]).id
        != keep implies exists|j: int|
        0 <= j < rows.len() && (#[trigger] rows[j]).memory.id == actives[k].id by {
        actives.lemma_filter_contains(p, k);
        let j = choose|j: int| 0 <= j < losers.len() && losers[j] == actives[k];
        assert(rows[j] == lost_to(losers[j], keep, now));
    }
}

// ── Feedback ─────────────────────────────────────────────────────────────────────────

/// What a caller made of a memory.
#[derive(Debug, Clone, Copy, PartialEq, Eq, Structural)]
pub enum MemoryFeedback {
    /// It was of use.
    Helpful,
    /// It is not true.
    Wrong,
    /// It is no longer true.
    Obsolete,
}

/// The verdict of a word in lower case.
pub open spec fn verdict_named(s: Seq<char>) -> Option<MemoryFeedback> {
    if s == "helpful"@ || s == "useful"@ || s == "up"@ {
        Some(MemoryFeedback::Helpful)
    } else if s == "wrong"@ || s == "incorrect"@ || s == "down"@ {
        Some(MemoryFeedback::Wrong)
    } else if s == "obsolete"@ || s == "stale"@ || s == "outdated"@ {
        Some(MemoryFeedback::Obsolete)
    } else {
        None
    }
}

impl MemoryFeedback {
    /// Reads a verdict, whatever its case.
    pub fn from_str_loose(s: &str) -> (r: Option<MemoryFeedback>)
        ensures
            r == verdict_named(lowered(s@)),
    {
        let lower = s.to_lowercase();
        let t = lower.as_str();
        if text::same(t, "helpful") || text::same(t, "useful") || text::same(t, "up") {
            Some(MemoryFeedback::Helpful)
        } else if text::same(t, "wrong") || text::same(t, "incorrect") || text::same(t, "down") {
            Some(MemoryFeedback::Wrong)
        } else if text::same(t, "obsolete") || text::same(t, "stale") || text::same(
            t,
            "outdated",
        ) {
            Some(MemoryFeedback::Obsolete)
        } else {
            None
        }
    }
}

/// What feedback comes to.
#[derive(Debug)]
pub enum FeedbackAction {
    /// These rows are written, with more weight.
    Reinforce(Vec<MemoryRow>),
    /// These memories are expired.
    Retire(Vec<u128>),
}

pub enum FeedbackView {
    Reinforce(Seq<RowView>),
    Retire(Seq<u128>),
}

impl View for FeedbackAction {
    type V = FeedbackView;

    open spec fn view(&self) -> FeedbackView {
        match *self {
            FeedbackAction::Reinforce(rows) => FeedbackView::Reinforce(row_views(rows@)),
            FeedbackAction::Retire(ids) => FeedbackView::Retire(ids@),
        }
    }
}

/// The memory after feedback, and what is to be done. `raised` is the importance one step up.
pub open spec fn judged(
    m: MemoryView,
    verdict: MemoryFeedback,
    raised: Score,
    embedding: Option<Seq<u32>>,
    now: i128,
) -> (MemoryView, FeedbackView) {
    match verdict {
        MemoryFeedback::Helpful => {
            let after = MemoryView {
                importance: raised,
                version: (m.version + 1) as u64,
                updated_at: now,
                ..m
            };
            (after, FeedbackView::Reinforce(seq![RowView { memory: after, embedding }]))
        },
        _ => (m, FeedbackView::Retire(seq![m.id])),
    }
}

/// Plans what feedback on a memory comes to: what helped gains weight and keeps its vector, what is
/// wrong or stale is retired.
pub fn memory_feedback_plan(
    memory: Option<Memory>,
    verdict: MemoryFeedback,
    raised: Score,
    embedding: Option<Vec<u32>>,
    now: i128,
) -> (r: Option<(Memory, FeedbackAction)>)
    requires
        memory is Some && verdict is Helpful ==> memory->0.version < u64::MAX,
    ensures
        match (memory, r) {
            (Some(m), Some((after, action))) => (after@, action@) == judged(
                m@,
                verdict,
                raised,
                vector_view(embedding),
                now,
            ),
            (None, None) => true,
            _ => false,
        },
{
    match memory {
        None => None,
        Some(m) => match verdict {
            MemoryFeedback::Helpful => {
                let mut after = m;
                after.importance = raised;
                after.version = after.version + 1;
                after.updated_at = now;
                let ghost emb = vector_view(embedding);
                let mut rows: Vec<MemoryRow> = Vec::new();
                rows.push(MemoryRow { memory: after.copy(), embedding });
                proof {
                    assert(row_views(rows@) =~= seq![RowView { memory: after@, embedding: emb }]);
                }
                Some((after, FeedbackAction::Reinforce(rows)))
            },
            _ => {
                let mut ids: Vec<u128> = Vec::new();
                ids.push(m.id);
                proof {
                    assert(ids@ =~= seq![m.id]);
                }
                Some((m, FeedbackAction::Retire(ids)))
            },
        },
    }
}

// ── Proposals ────────────────────────────────────────────────────────────────────────

/// A proposed memory: what the input says, not yet believed.
pub open spec fn proposed(input: InputView, id: u128, now: i128) -> MemoryView {
    MemoryView {
        id,
        scope: input.scope,
        subject: input.subject,
        content: input.content,
        mem_type: match input.mem_type {
            Some(t) => t,
            None => "semantic"@,
        },
        importance: clamped(
            match input.importance {
                Some(s) => s,
                None => Score { bits: 0x3f00_0000 },
            },
        ),
        state: MemoryState::Pending,
        version: 1,
        project: input.project,
        supersedes: None,
        valid_from: match input.valid_from {
            Some(t) => t,
            None => now,
        },
        valid_to: None,
        created_at: now,
        updated_at: now,
        source_event_ids: input.source_event_ids,
        metadata: input.metadata,
    }
}

/// Records a proposal. It is a write, so the rules of the tenant hold for it; but it changes no
/// belief, so it replaces nothing and is found by no search.
pub fn memory_propose(
    rules: &GovernanceRules,
    facts: &FactRules,
    input: MemoryInput,
    normalized: Option<String>,
    id: u128,
    now: i128,
) -> (r: Result<Memory, Error>)
    ensures
        ({
            let ready = prepared(input@, opt_view(normalized));
            match (
                r,
                governed(
                    *rules,
                    facts@,
                    ready.subject,
                    ready.metadata,
                    ready.source_event_ids.len(),
                ),
            ) {
                (Ok(m), Ok(_)) => m@ == proposed(ready, id, now),
                (Err(e), Err(expected)) => e@ == expected,
                _ => false,
            }
        }),
{
    match receive(rules, facts, input, normalized) {
        Err(e) => Err(e),
        Ok(ready) => {
            let importance = match ready.importance {
                Some(s) => s.clamp(),
                None => Score::half().clamp(),
            };
            let mem_type = match ready.mem_type {
                Some(t) => t,
                None => "semantic".to_owned(),
            };
            let valid_from: i128 = match ready.valid_from {
                Some(t) => t,
                None => now,
            };
            Ok(
                Memory {
                    id,
                    scope: ready.scope,
                    subject: ready.subject,
                    content: ready.content,
                    mem_type,
                    importance,
                    state: MemoryState::Pending,
                    version: 1,
                    project: ready.project,
                    supersedes: None,
                    valid_from,
                    valid_to: None,
                    created_at: now,
                    updated_at: now,
                    source_event_ids: ready.source_event_ids,
                    metadata: ready.metadata,
                },
            )
        },
    }
}

/// A proposal that is still open.
pub open spec fn open_proposal(found: Option<MemoryView>) -> Option<MemoryView> {
    match found {
        Some(m) if m.state == MemoryState::Pending => Some(m),
        _ => None,
    }
}

pub open spec fn opt_memory(o: Option<Memory>) -> Option<MemoryView> {
    match o {
        Some(m) => Some(m@),
        None => None,
    }
}

/// The proposal, where what was found is one, and still open.
pub fn pending_of(found: Option<Memory>) -> (r: Option<Memory>)
    ensures
        opt_memory(r) == open_proposal(opt_memory(found)),
{
    match found {
        Some(m) => match m.state {
            MemoryState::Pending => Some(m),
            _ => None,
        },
        None => None,
    }
}

/// What an accepted proposal is added as.
pub open spec fn accepted(m: MemoryView) -> InputView {
    InputView {
        scope: m.scope,
        subject: m.subject,
        content: m.content,
        importance: Some(m.importance),
        source_event_ids: m.source_event_ids,
        metadata: m.metadata,
        mem_type: Some(m.mem_type),
        valid_from: Some(m.valid_from),
        project: m.project,
    }
}

/// The input by which an accepted proposal is added, like any other.
pub fn memory_accept(proposal: &Memory) -> (r: MemoryInput)
    ensures
        r@ == accepted(proposal@),
{
    MemoryInput {
        scope: proposal.scope.copy(),
        subject: copy_opt(&proposal.subject),
        content: proposal.content.clone(),
        importance: Some(proposal.importance),
        source_event_ids: copy_ids(&proposal.source_event_ids),
        metadata: proposal.metadata.copy(),
        mem_type: Some(proposal.mem_type.clone()),
        valid_from: Some(proposal.valid_from),
        project: copy_opt(&proposal.project),
    }
}

/// The decision, in the metadata of the proposal.
pub open spec fn reviewed(
    metadata: JsonView,
    decision: Seq<char>,
    at: Seq<char>,
    accepted_as: Option<u128>,
) -> JsonView {
    match metadata {
        JsonView::Object(fields) => {
            let decided = with_field(
                with_field(fields, "review_decision"@, JsonView::Str(decision)),
                "review_decided_at"@,
                JsonView::Str(at),
            );
            JsonView::Object(
                match accepted_as {
                    Some(id) => with_field(
                        decided,
                        "review_accepted_as"@,
                        JsonView::Str(uuid_notation(id)),
                    ),
                    None => decided,
                },
            )
        },
        other => other,
    }
}

/// A proposal that was decided: it is kept, expired, with the decision.
pub open spec fn retired(
    m: MemoryView,
    decision: Seq<char>,
    at: Seq<char>,
    accepted_as: Option<u128>,
    now: i128,
) -> MemoryView {
    MemoryView {
        state: MemoryState::Expired,
        valid_to: Some(now),
        updated_at: now,
        version: (m.version + 1) as u64,
        metadata: reviewed(m.metadata, decision, at, accepted_as),
        ..m
    }
}

/// Retires a proposal with the decision on it. There is no result where `now` is not an instant of
/// the calendar.
pub fn retire_proposal(
    proposal: &Memory,
    decision: &str,
    accepted_as: Option<u128>,
    now: i128,
) -> (r: Option<Memory>)
    requires
        proposal.version < u64::MAX,
    ensures
        match (r, json_instant(now)) {
            (Some(m), Some(at)) => m@ == retired(proposal@, decision@, at, accepted_as, now),
            (None, None) => true,
            _ => false,
        },
{
    let at = match json_text(now) {
        Some(t) => t,
        None => {
            return None;
        },
    };
    let mut m = proposal.copy();
    m.state = MemoryState::Expired;
    m.valid_to = Some(now);
    m.updated_at = now;
    m.version = m.version + 1;
    let metadata = proposal.metadata.copy();
    let metadata = match metadata {
        Json::Object(fields) => {
            let mut fields = fields;
            proof {
                assert(json::tree(metadata)->Object_0 =~= field_views(fields@));
            }
            json::set_field(&mut fields, "review_decision", json::string(decision));
            json::set_field(&mut fields, "review_decided_at", json::string(at.as_str()));
            if let Some(id) = accepted_as {
                json::set_field(
                    &mut fields,
                    "review_accepted_as",
                    json::string(uuid_text(id).as_str()),
                );
            }
            json::object(fields)
        },
        other => other,
    };
    m.metadata = metadata;
    Some(m)
}

/// A proposal is decided once: after a decision it is no open proposal any more.
pub proof fn law_proposals_are_decided_once(
    m: MemoryView,
    decision: Seq<char>,
    at: Seq<char>,
    accepted_as: Option<u128>,
    now: i128,
)
    ensures
        open_proposal(Some(retired(m, decision, at, accepted_as, now))) is None,
{
}

/// A proposal that is accepted at once is added as if it had been written directly, with its tenant
/// and its normalised subject: only what it left open is filled in.
pub proof fn law_accepting_is_writing(input: InputView, id: u128, now: i128)
    ensures
        ({
            let back = accepted(proposed(input, id, now));
            &&& back.scope == input.scope && back.subject == input.subject
            &&& back.content == input.content && back.metadata == input.metadata
            &&& back.source_event_ids == input.source_event_ids && back.project == input.project
            &&& input.mem_type is Some ==> back.mem_type == input.mem_type
            &&& input.valid_from is Some ==> back.valid_from == input.valid_from
        }),
{
}

/// A proposal is found by no search, and neither is what is left of one.
pub proof fn law_proposals_are_not_searched(
    input: InputView,
    id: u128,
    now: i128,
    embedding: Option<Seq<u32>>,
    scope_key: Seq<char>,
)
    ensures
        crate::engine::apply::index_step_of(
            RowView { memory: proposed(input, id, now), embedding },
            scope_key,
        ) is Forget,
{
}

// ── Corrections ──────────────────────────────────────────────────────────────────────

/// What is to be corrected.
#[derive(Debug)]
pub struct MemoryPatch {
    pub content: Option<String>,
    pub importance: Option<Score>,
    pub mem_type: Option<String>,
    pub metadata: Option<Json>,
}

pub struct MemoryPatchView {
    pub content: Option<Seq<char>>,
    pub importance: Option<Score>,
    pub mem_type: Option<Seq<char>>,
    pub metadata: Option<JsonView>,
}

impl View for MemoryPatch {
    type V = MemoryPatchView;

    open spec fn view(&self) -> MemoryPatchView {
        MemoryPatchView {
            content: opt_view(self.content),
            importance: self.importance,
            mem_type: opt_view(self.mem_type),
            metadata: match self.metadata {
                Some(j) => Some(j@),
                None => None,
            },
        }
    }
}

pub open spec fn corrected(m: MemoryView, patch: MemoryPatchView, now: i128) -> MemoryView {
    MemoryView {
        content: match patch.content {
            Some(c) => c,
            None => m.content,
        },
        importance: match patch.importance {
            Some(s) => clamped(s),
            None => m.importance,
        },
        mem_type: match patch.mem_type {
            Some(t) => t,
            None => m.mem_type,
        },
        metadata: match patch.metadata {
            Some(j) => j,
            None => m.metadata,
        },
        version: (m.version + 1) as u64,
        updated_at: now,
        ..m
    }
}

/// Does a correction change what a memory says, white space at its ends aside?
pub open spec fn says_otherwise(m: MemoryView, patch: MemoryPatchView) -> bool {
    match patch.content {
        Some(c) => !same_content(c, m.content),
        None => false,
    }
}

/// Whether a vector has to be made anew for a correction, and of what text. Only an active memory
/// can be corrected.
pub fn reembeds(existing: &Option<Memory>, patch: &MemoryPatch) -> (r: bool)
    ensures
        r == match *existing {
            Some(m) => m.state == MemoryState::Active && says_otherwise(m@, patch@),
            None => false,
        },
{
    match existing {
        Some(m) => match m.state {
            MemoryState::Active => match &patch.content {
                Some(c) => text::trim_str(c.as_str()) != text::trim_str(m.content.as_str()),
                None => false,
            },
            _ => false,
        },
        None => false,
    }
}

/// The vectors at hand for a correction.
#[derive(Debug)]
pub struct Vectors {
    /// Is there a provider of embeddings?
    pub provider: bool,
    /// What it made of the new text, where it was asked and did not fail.
    pub fresh: Option<Vec<u32>>,
    /// The vector that is stored.
    pub stored: Option<Vec<u32>>,
}

/// The vector of a corrected memory: made anew where the text changed, and the stored one where
/// that failed or the text did not change.
pub open spec fn corrected_vector(
    otherwise: bool,
    provider: bool,
    fresh: Option<Seq<u32>>,
    stored: Option<Seq<u32>>,
) -> Option<Seq<u32>> {
    if otherwise {
        if provider {
            match fresh {
                Some(v) => Some(v),
                None => stored,
            }
        } else {
            None
        }
    } else {
        stored
    }
}

/// Plans a correction. What is not active is history, and stays as it is.
pub fn memory_update_plan(
    existing: Option<Memory>,
    patch: MemoryPatch,
    vectors: Vectors,
    now: i128,
) -> (r: Option<MemoryRow>)
    requires
        existing matches Some(m) ==> m.version < u64::MAX,
    ensures
        match existing {
            Some(m) if m.state == MemoryState::Active => r matches Some(row) && row@ == (RowView {
                memory: corrected(m@, patch@, now),
                embedding: corrected_vector(
                    says_otherwise(m@, patch@),
                    vectors.provider,
                    vector_view(vectors.fresh),
                    vector_view(vectors.stored),
                ),
            }),
            _ => r is None,
        },
{
    let otherwise = reembeds(&existing, &patch);
    match existing {
        None => None,
        Some(m) => {
            match m.state {
                MemoryState::Active => {},
                _ => {
                    return None;
                },
            }
            let mut after = m;
            if let Some(c) = patch.content {
                after.content = c;
            }
            if let Some(s) = patch.importance {
                after.importance = s.clamp();
            }
            if let Some(t) = patch.mem_type {
                after.mem_type = t;
            }
            if let Some(j) = patch.metadata {
                after.metadata = j;
            }
            after.version = after.version + 1;
            after.updated_at = now;
            let embedding = if otherwise {
                if vectors.provider {
                    match vectors.fresh {
                        Some(v) => Some(v),
                        None => vectors.stored,
                    }
                } else {
                    None
                }
            } else {
                vectors.stored
            };
            Some(MemoryRow { memory: after, embedding })
        },
    }
}

// ── Provenance ───────────────────────────────────────────────────────────────────────

/// Why a memory is believed: the events behind it, and the versions before it.
#[derive(Debug)]
pub struct MemoryProvenance {
    pub memory: Memory,
    pub source_events: Vec<Event>,
    /// Every version of the subject, the oldest first; the memory alone where it has none.
    pub history: Vec<Memory>,
}

pub struct ProvenanceView {
    pub memory: MemoryView,
    pub source_events: Seq<EventView>,
    pub history: Seq<MemoryView>,
}

impl View for MemoryProvenance {
    type V = ProvenanceView;

    open spec fn view(&self) -> ProvenanceView {
        ProvenanceView {
            memory: self.memory@,
            source_events: crate::engine::documents::event_views(self.source_events@),
            history: memory_views(self.history@),
        }
    }
}

/// Puts together why a memory is believed. `events` are the events behind it, where they could be
/// read; `history` are the versions of its subject.
pub fn memory_provenance(memory: Memory, events: Option<Vec<Event>>, history: Vec<Memory>) -> (r:
    MemoryProvenance)
    ensures
        r@ == (ProvenanceView {
            memory: memory@,
            source_events: match events {
                Some(e) => crate::engine::documents::event_views(e@),
                None => seq![],
            },
            history: if memory@.subject is Some {
                memory_views(history@)
            } else {
                seq![memory@]
            },
        }),
{
    let source_events = match events {
        Some(e) => e,
        None => {
            let none: Vec<Event> = Vec::new();
            proof {
                assert(crate::engine::documents::event_views(none@) =~= seq![]);
            }
            none
        },
    };
    let history = if memory.subject.is_some() {
        history
    } else {
        let mut own: Vec<Memory> = Vec::new();
        own.push(memory.copy());
        proof {
            assert(memory_views(own@) =~= seq![memory@]);
        }
        own
    };
    MemoryProvenance { memory, source_events, history }
}

} // verus!
