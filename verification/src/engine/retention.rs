//! How long events are kept.

use vstd::prelude::*;

use crate::json;
use crate::json::{integer_of, Json, JsonView};
use crate::text;
use crate::text::{joined, listed, opt_view, views};
use crate::time::instant;

verus! {

broadcast use vstd::string::group_string_axioms;

// ── Policies ─────────────────────────────────────────────────────────────────────────

/// How many days the events of a source are kept; for ever, where it is none.
#[derive(Debug)]
pub struct Policy {
    pub source: String,
    pub days: u32,
}

pub struct PolicyView {
    pub source: Seq<char>,
    pub days: u32,
}

impl View for Policy {
    type V = PolicyView;

    open spec fn view(&self) -> PolicyView {
        PolicyView { source: self.source@, days: self.days }
    }
}

pub open spec fn policy_views(v: Seq<Policy>) -> Seq<PolicyView> {
    v.map_values(|p: Policy| p@)
}

/// The policy of an entry: a source and a number of days, and nothing else.
pub open spec fn policy_of(item: JsonView) -> Option<PolicyView> {
    match item {
        JsonView::Array(parts) => if parts.len() == 2 {
            match (parts[0], parts[1]) {
                (JsonView::Str(source), JsonView::Number(n)) => match n.int {
                    Some(days) if 0 <= days <= u32::MAX => Some(
                        PolicyView { source, days: days as u32 },
                    ),
                    _ => None,
                },
                _ => None,
            }
        } else {
            None
        },
        _ => None,
    }
}

/// The policies of stored entries, or `None` where any of them is none.
pub open spec fn policies_among(items: Seq<JsonView>) -> Option<Seq<PolicyView>>
    decreases items.len(),
{
    if items.len() == 0 {
        Some(seq![])
    } else {
        match (policies_among(items.drop_last()), policy_of(items.last())) {
            (Some(before), Some(p)) => Some(before.push(p)),
            _ => None,
        }
    }
}

/// The policies that are stored. What cannot be read counts as none.
pub open spec fn stored_policies(value: Option<JsonView>) -> Seq<PolicyView> {
    match value {
        Some(JsonView::Array(items)) => match policies_among(items) {
            Some(policies) => policies,
            None => seq![],
        },
        _ => seq![],
    }
}

fn read_policy(item: &Json) -> (r: Option<Policy>)
    ensures
        match (r, policy_of(item@)) {
            (Some(p), Some(v)) => p@ == v,
            (None, None) => true,
            _ => false,
        },
{
    if let Json::Array(parts) = item {
        if parts.len() == 2 {
            proof {
                assert(json::tree(*item)->Array_0[0] == parts@[0]@);
                assert(json::tree(*item)->Array_0[1] == parts@[1]@);
            }
            if let (Json::Str(source), Json::Number(n)) = (&parts[0], &parts[1]) {
                if let Some(days) = n.int {
                    if 0 <= days && days <= 0xffff_ffffi128 {
                        return Some(Policy { source: source.clone(), days: days as u32 });
                    }
                }
            }
        }
    }
    None
}

proof fn lemma_policies_stop(items: Seq<JsonView>, i: int)
    requires
        0 <= i < items.len(),
        policy_of(items[i]) is None,
    ensures
        policies_among(items) is None,
    decreases items.len(),
{
    if i < items.len() - 1 {
        assert(items.drop_last()[i] == items[i]);
        lemma_policies_stop(items.drop_last(), i);
    }
}

/// Reads the policies that are stored.
pub fn retention_policies(value: Option<&Json>) -> (r: Vec<Policy>)
    ensures
        policy_views(r@) == stored_policies(json::opt_tree(value)),
{
    let mut out: Vec<Policy> = Vec::new();
    proof {
        assert(policy_views(out@) =~= seq![]);
    }
    if let Some(Json::Array(items)) = value {
        let ghost all = json::tree(Json::Array(*items))->Array_0;
        let mut i: usize = 0;
        proof {
            assert(all.take(0) =~= seq![]);
        }
        while i < items.len()
            invariant
                i <= items.len(),
                all == json::tree(Json::Array(*items))->Array_0,
                json::opt_tree(value) == Some(JsonView::Array(all)),
                policies_among(all.take(i as int)) == Some(policy_views(out@)),
            decreases items.len() - i,
        {
            let ghost before = out@;
            proof {
                assert(all.take(i + 1).drop_last() =~= all.take(i as int));
                assert(all.take(i + 1).last() == items@[i as int]@);
            }
            match read_policy(&items[i]) {
                Some(p) => {
                    let ghost v = p@;
                    out.push(p);
                    proof {
                        assert(policy_views(out@) =~= policy_views(before).push(v));
                    }
                },
                None => {
                    proof {
                        lemma_policies_stop(all, i as int);
                    }
                    let none: Vec<Policy> = Vec::new();
                    proof {
                        assert(policy_views(none@) =~= seq![]);
                    }
                    return none;
                },
            }
            i += 1;
        }
        proof {
            assert(all.take(all.len() as int) =~= all);
        }
    }
    out
}

/// A policy as it is stored.
pub open spec fn policy_json(p: PolicyView) -> JsonView {
    JsonView::Array(seq![JsonView::Str(p.source), integer_of(p.days as u64)])
}

pub open spec fn policies_json(policies: Seq<PolicyView>) -> JsonView {
    JsonView::Array(policies.map_values(|p: PolicyView| policy_json(p)))
}

fn write_policy(p: &Policy) -> (r: Json)
    ensures
        r@ == policy_json(p@),
        policy_of(r@) == Some(p@),
{
    let mut parts: Vec<Json> = Vec::new();
    let days = json::integer(p.days as u64);
    let ghost number = days@;
    parts.push(json::string(p.source.as_str()));
    parts.push(days);
    let r = Json::Array(parts);
    proof {
        assert(number is Number);
        assert(json::tree(r)->Array_0 =~= policy_json(p@)->Array_0);
    }
    r
}

proof fn lemma_all_read(items: Seq<JsonView>, policies: Seq<PolicyView>)
    requires
        items.len() == policies.len(),
        forall|i: int| 0 <= i < items.len() ==> policy_of(#[trigger] items[i]) == Some(policies[i]),
    ensures
        policies_among(items) == Some(policies),
    decreases items.len(),
{
    if items.len() == 0 {
        assert(policies =~= seq![]);
    } else {
        let rest = items.drop_last();
        assert forall|i: int| 0 <= i < rest.len() implies policy_of(#[trigger] rest[i]) == Some(
            policies.drop_last()[i],
        ) by {
            assert(rest[i] == items[i]);
        }
        lemma_all_read(rest, policies.drop_last());
        assert(items[items.len() - 1] == items.last());
        assert(policies =~= policies.drop_last().push(policies.last()));
    }
}

/// Writes policies as they are stored. What is written can be read: the same policies come back.
pub fn write_policies(policies: &Vec<Policy>) -> (r: Json)
    ensures
        r@ == policies_json(policy_views(policies@)),
        stored_policies(Some(r@)) == policy_views(policies@),
{
    let mut items: Vec<Json> = Vec::new();
    let mut i: usize = 0;
    while i < policies.len()
        invariant
            i <= policies.len(),
            items.len() == i,
            forall|k: int|
                0 <= k < i ==> (#[trigger] items@[k])@ == policy_json(policies@[k]@) && policy_of(
                    items@[k]@,
                ) == Some(policies@[k]@),
        decreases policies.len() - i,
    {
        items.push(write_policy(&policies[i]));
        i += 1;
    }
    let r = Json::Array(items);
    proof {
        assert(json::tree(r)->Array_0 =~= policies_json(policy_views(policies@))->Array_0);
        assert forall|k: int| 0 <= k < items@.len() implies policy_of(
            #[trigger] json::tree(r)->Array_0[k],
        ) == Some(policy_views(policies@)[k]) by {
            assert(json::tree(r)->Array_0[k] == items@[k]@);
        }
        lemma_all_read(json::tree(r)->Array_0, policy_views(policies@));
    }
    r
}

/// The policies with one set: changed where the source has one, added at the end otherwise.
pub open spec fn with_policy(policies: Seq<PolicyView>, source: Seq<char>, days: u32) -> Seq<
    PolicyView,
>
    decreases policies.len(),
{
    if policies.len() == 0 {
        seq![PolicyView { source, days }]
    } else if policies[0].source == source {
        policies.update(0, PolicyView { source, days })
    } else {
        seq![policies[0]] + with_policy(policies.drop_first(), source, days)
    }
}

/// Sets the policy of a source.
pub fn set_retention_policy(policies: Vec<Policy>, source: &str, days: u32) -> (r: Vec<Policy>)
    ensures
        policy_views(r@) == with_policy(policy_views(policies@), source@, days),
{
    let ghost all = policy_views(policies@);
    let mut out = policies;
    let mut i: usize = 0;
    proof {
        assert(all.skip(0) =~= all);
        assert(all.take(0) + with_policy(all, source@, days) =~= with_policy(all, source@, days));
    }
    while i < out.len()
        invariant
            i <= out.len(),
            all == policy_views(policies@),
            all == policy_views(out@),
            all.take(i as int) + with_policy(all.skip(i as int), source@, days) == with_policy(
                all,
                source@,
                days,
            ),
        decreases out.len() - i,
    {
        let ghost rest = all.skip(i as int);
        proof {
            assert(rest[0] == out@[i as int]@);
            assert(rest.drop_first() =~= all.skip(i + 1));
        }
        if text::same(out[i].source.as_str(), source) {
            out.set(i, Policy { source: source.to_owned(), days });
            proof {
                let p = PolicyView { source: source@, days };
                assert(policy_views(out@) =~= all.update(i as int, p));
                assert(all.take(i as int) + rest.update(0, p) =~= all.update(i as int, p));
            }
            return out;
        }
        proof {
            assert(all.take(i as int) + (seq![rest[0]] + with_policy(
                all.skip(i + 1),
                source@,
                days,
            )) =~= all.take(i + 1) + with_policy(all.skip(i + 1), source@, days));
        }
        i += 1;
    }
    let ghost before = out@;
    out.push(Policy { source: source.to_owned(), days });
    proof {
        assert(all.skip(i as int) =~= seq![]);
        assert(all.take(i as int) =~= all);
        assert(policy_views(out@) =~= all + seq![PolicyView { source: source@, days }]);
    }
    out
}

/// The policies without that of a source.
pub open spec fn without_policy(policies: Seq<PolicyView>, source: Seq<char>) -> Seq<PolicyView> {
    policies.filter(|p: PolicyView| p.source != source)
}

/// Removes the policy of a source.
pub fn remove_retention_policy(policies: &Vec<Policy>, source: &str) -> (r: Vec<Policy>)
    ensures
        policy_views(r@) == without_policy(policy_views(policies@), source@),
{
    let ghost all = policy_views(policies@);
    let ghost keep = |p: PolicyView| p.source != source@;
    let mut out: Vec<Policy> = Vec::new();
    let mut i: usize = 0;
    proof {
        crate::seqs::lemma_filter_none(all, keep);
        assert(policy_views(out@) =~= all.take(0).filter(keep));
    }
    while i < policies.len()
        invariant
            i <= policies.len(),
            all == policy_views(policies@),
            keep == |p: PolicyView| p.source != source@,
            policy_views(out@) == all.take(i as int).filter(keep),
        decreases policies.len() - i,
    {
        let ghost before = out@;
        proof {
            crate::seqs::lemma_filter_take(all, keep, i as int);
            assert(all[i as int] == policies@[i as int]@);
        }
        if !text::same(policies[i].source.as_str(), source) {
            out.push(Policy { source: policies[i].source.clone(), days: policies[i].days });
            proof {
                assert(policy_views(out@) =~= policy_views(before).push(all[i as int]));
            }
        }
        i += 1;
    }
    proof {
        assert(all.take(all.len() as int) =~= all);
    }
    out
}

/// The policy of a source.
pub open spec fn days_of(policies: Seq<PolicyView>, source: Seq<char>) -> Option<u32>
    decreases policies.len(),
{
    if policies.len() == 0 {
        None
    } else if policies[0].source == source {
        Some(policies[0].days)
    } else {
        days_of(policies.drop_first(), source)
    }
}

/// What is set is what holds, and the policies of other sources stay.
pub proof fn law_policies_are_set(
    policies: Seq<PolicyView>,
    source: Seq<char>,
    days: u32,
    other: Seq<char>,
)
    ensures
        days_of(with_policy(policies, source, days), other) == if other == source {
            Some(days)
        } else {
            days_of(policies, other)
        },
    decreases policies.len(),
{
    let set = with_policy(policies, source, days);
    if policies.len() == 0 {
        assert(set.drop_first() =~= policies);
    } else if policies[0].source == source {
        assert(set.drop_first() =~= policies.drop_first());
    } else {
        law_policies_are_set(policies.drop_first(), source, days, other);
        assert(set.drop_first() =~= with_policy(policies.drop_first(), source, days));
    }
}

/// What is removed is gone, and the policies of other sources stay.
pub proof fn law_policies_are_removed(
    policies: Seq<PolicyView>,
    source: Seq<char>,
    other: Seq<char>,
)
    ensures
        days_of(without_policy(policies, source), other) == if other == source {
            None
        } else {
            days_of(policies, other)
        },
    decreases policies.len(),
{
    let keep = |p: PolicyView| p.source != source;
    if policies.len() == 0 {
        reveal(Seq::filter);
        assert(policies.filter(keep) =~= policies);
    } else {
        let rest = policies.drop_first();
        law_policies_are_removed(rest, source, other);
        assert(policies =~= seq![policies[0]] + rest);
        Seq::filter_distributes_over_add(seq![policies[0]], rest, keep);
        reveal(Seq::filter);
        let first = seq![policies[0]];
        assert(first.drop_last() =~= Seq::<PolicyView>::empty());
        assert(first.drop_last().filter(keep) =~= Seq::<PolicyView>::empty());
        if keep(policies[0]) {
            assert(first.filter(keep) =~= first);
            assert((first + rest.filter(keep)).drop_first() =~= rest.filter(keep));
        } else {
            assert(first.filter(keep) =~= Seq::<PolicyView>::empty());
            assert(Seq::<PolicyView>::empty() + rest.filter(keep) =~= rest.filter(keep));
        }
    }
}

// ── Enforcing ────────────────────────────────────────────────────────────────────────

/// A deletion: of the events of one source, or of all but some, that are older than an instant.
#[derive(Debug)]
pub struct Deletion {
    pub only: Option<String>,
    pub except: Vec<String>,
    pub before: i128,
}

pub struct DeletionView {
    pub only: Option<Seq<char>>,
    pub except: Seq<Seq<char>>,
    pub before: int,
}

impl View for Deletion {
    type V = DeletionView;

    open spec fn view(&self) -> DeletionView {
        DeletionView {
            only: opt_view(self.only),
            except: views(self.except@),
            before: self.before as int,
        }
    }
}

pub open spec fn deletion_views(v: Seq<Deletion>) -> Seq<DeletionView> {
    v.map_values(|d: Deletion| d@)
}

/// The nanoseconds of a day.
pub const DAY: i128 = 86_400_000_000_000;

/// What is older than so many days is deleted.
pub open spec fn cutoff(now: i128, days: u32) -> int {
    now - days * DAY
}

pub open spec fn sources_of(policies: Seq<PolicyView>) -> Seq<Seq<char>> {
    policies.map_values(|p: PolicyView| p.source)
}

/// The deletions of the policies, each for its source.
pub open spec fn policy_deletions(policies: Seq<PolicyView>, now: i128) -> Seq<DeletionView>
    decreases policies.len(),
{
    if policies.len() == 0 {
        seq![]
    } else {
        let before = policy_deletions(policies.drop_last(), now);
        let p = policies.last();
        if p.days == 0 {
            before
        } else {
            before.push(
                DeletionView {
                    only: Some(p.source),
                    except: seq![],
                    before: cutoff(now, p.days),
                },
            )
        }
    }
}

/// All deletions: those of the policies, and that of the default for every source without one.
pub open spec fn deletions(policies: Seq<PolicyView>, default_days: u32, now: i128) -> Seq<
    DeletionView,
> {
    if default_days == 0 {
        policy_deletions(policies, now)
    } else {
        policy_deletions(policies, now).push(
            DeletionView {
                only: None,
                except: sources_of(policies),
                before: cutoff(now, default_days),
            },
        )
    }
}

fn list_sources(policies: &Vec<Policy>) -> (r: Vec<String>)
    ensures
        views(r@) == sources_of(policy_views(policies@)),
{
    let ghost all = sources_of(policy_views(policies@));
    let mut out: Vec<String> = Vec::new();
    let mut i: usize = 0;
    proof {
        assert(views(out@) =~= all.take(0));
    }
    while i < policies.len()
        invariant
            i <= policies.len(),
            all == sources_of(policy_views(policies@)),
            views(out@) == all.take(i as int),
        decreases policies.len() - i,
    {
        let ghost before = out@;
        out.push(policies[i].source.clone());
        i += 1;
        proof {
            assert(all[i - 1] == policies@[i - 1].source@);
            assert(views(out@) =~= views(before).push(all[i - 1]));
            assert(all.take(i as int) =~= all.take(i - 1).push(all[i - 1]));
        }
    }
    proof {
        assert(all.take(all.len() as int) =~= all);
    }
    out
}

/// Plans which events are deleted.
pub fn enforce_retention(policies: &Vec<Policy>, default_days: u32, now: i128) -> (r: Vec<Deletion>)
    requires
        now >= i128::MIN + u32::MAX * DAY,
    ensures
        deletion_views(r@) == deletions(policy_views(policies@), default_days, now),
{
    let ghost all = policy_views(policies@);
    let mut out: Vec<Deletion> = Vec::new();
    let mut i: usize = 0;
    proof {
        assert(all.take(0) =~= seq![]);
        assert(deletion_views(out@) =~= seq![]);
    }
    while i < policies.len()
        invariant
            i <= policies.len(),
            now >= i128::MIN + u32::MAX * DAY,
            all == policy_views(policies@),
            deletion_views(out@) == policy_deletions(all.take(i as int), now),
        decreases policies.len() - i,
    {
        let ghost before = out@;
        proof {
            assert(all.take(i + 1).drop_last() =~= all.take(i as int));
            assert(all.take(i + 1).last() == policies@[i as int]@);
        }
        if policies[i].days != 0 {
            let none: Vec<String> = Vec::new();
            proof {
                assert(views(none@) =~= seq![]);
            }
            let d = Deletion {
                only: Some(policies[i].source.clone()),
                except: none,
                before: now - policies[i].days as i128 * DAY,
            };
            let ghost v = d@;
            out.push(d);
            proof {
                assert(deletion_views(out@) =~= deletion_views(before).push(v));
            }
        }
        i += 1;
    }
    proof {
        assert(all.take(all.len() as int) =~= all);
    }
    if default_days > 0 {
        let ghost before = out@;
        let d = Deletion {
            only: None,
            except: list_sources(policies),
            before: now - default_days as i128 * DAY,
        };
        let ghost v = d@;
        out.push(d);
        proof {
            assert(deletion_views(out@) =~= deletion_views(before).push(v));
        }
    }
    out
}

/// Does a deletion take an event of a source, from an instant?
pub open spec fn takes(d: DeletionView, source: Seq<char>, t: int) -> bool {
    t < d.before && (match d.only {
        Some(s) => s == source,
        None => true,
    }) && !listed(d.except, source)
}

/// How many days the events of a source are kept.
pub open spec fn kept_days(policies: Seq<PolicyView>, default_days: u32, source: Seq<char>) -> u32 {
    match days_of(policies, source) {
        Some(d) => d,
        None => default_days,
    }
}

pub open spec fn distinct_sources(policies: Seq<PolicyView>) -> bool {
    forall|i: int, j: int|
        0 <= i < j < policies.len() ==> (#[trigger] policies[i]).source != (
        #[trigger] policies[j]).source
}

proof fn lemma_days_of(policies: Seq<PolicyView>, source: Seq<char>)
    ensures
        match days_of(policies, source) {
            Some(d) => exists|i: int|
                0 <= i < policies.len() && (#[trigger] policies[i]).source == source
                    && policies[i].days == d,
            None => !listed(sources_of(policies), source),
        },
        days_of(policies, source) is Some ==> listed(sources_of(policies), source),
    decreases policies.len(),
{
    if policies.len() > 0 {
        let rest = policies.drop_first();
        if policies[0].source == source {
            assert(sources_of(policies)[0] == source);
        } else {
            lemma_days_of(rest, source);
            match days_of(rest, source) {
                Some(d) => {
                    let i = choose|i: int|
                        0 <= i < rest.len() && (#[trigger] rest[i]).source == source
                            && rest[i].days == d;
                    assert(policies[i + 1] == rest[i]);
                    assert(sources_of(policies)[i + 1] == source);
                },
                None => {
                    if listed(sources_of(policies), source) {
                        let i = choose|i: int|
                            0 <= i < policies.len() && sources_of(policies)[i] == source;
                        assert(sources_of(rest)[i - 1] == source);
                        assert(listed(sources_of(rest), source));
                    }
                },
            }
        }
    }
}

proof fn lemma_policy_deletions(policies: Seq<PolicyView>, now: i128, source: Seq<char>, t: int)
    ensures
        (exists|k: int|
            0 <= k < policy_deletions(policies, now).len() && takes(
                #[trigger] policy_deletions(policies, now)[k],
                source,
                t,
            )) <==> (exists|i: int|
            0 <= i < policies.len() && (#[trigger] policies[i]).source == source
                && policies[i].days > 0 && t < cutoff(now, policies[i].days)),
    decreases policies.len(),
{
    if policies.len() > 0 {
        let rest = policies.drop_last();
        lemma_policy_deletions(rest, now, source, t);
        let before = policy_deletions(rest, now);
        let all = policy_deletions(policies, now);
        let p = policies.last();
        if exists|k: int| 0 <= k < all.len() && takes(#[trigger] all[k], source, t) {
            let k = choose|k: int| 0 <= k < all.len() && takes(#[trigger] all[k], source, t);
            if k < before.len() {
                assert(all[k] == before[k]);
                assert(takes(before[k], source, t));
                let i = choose|i: int|
                    0 <= i < rest.len() && (#[trigger] rest[i]).source == source && rest[i].days
                        > 0 && t < cutoff(now, rest[i].days);
                assert(policies[i] == rest[i]);
            } else {
                assert(policies[policies.len() - 1] == p);
            }
        }
        if exists|i: int|
            0 <= i < policies.len() && (#[trigger] policies[i]).source == source
                && policies[i].days > 0 && t < cutoff(now, policies[i].days) {
            let i = choose|i: int|
                0 <= i < policies.len() && (#[trigger] policies[i]).source == source
                    && policies[i].days > 0 && t < cutoff(now, policies[i].days);
            if i < rest.len() {
                assert(rest[i] == policies[i]);
                let k = choose|k: int| 0 <= k < before.len() && takes(#[trigger] before[k], source, t);
                assert(all[k] == before[k]);
            } else {
                let d = all[before.len() as int];
                assert(d.only == Some(source));
                assert(!listed(d.except, source));
                assert(takes(all[before.len() as int], source, t));
            }
        }
    }
}

/// An event is deleted exactly where it is older than its source allows: the policy of the source
/// where it has one, and the default otherwise; and what is kept for ever is never deleted. A source
/// with two policies has none that holds, and is left out.
pub proof fn law_retention_keeps_what_it_promises(
    policies: Seq<PolicyView>,
    default_days: u32,
    now: i128,
    source: Seq<char>,
    t: int,
)
    requires
        distinct_sources(policies),
    ensures
        (exists|k: int|
            0 <= k < deletions(policies, default_days, now).len() && takes(
                #[trigger] deletions(policies, default_days, now)[k],
                source,
                t,
            )) <==> kept_days(policies, default_days, source) > 0 && t < cutoff(
            now,
            kept_days(policies, default_days, source),
        ),
{
    let all = deletions(policies, default_days, now);
    let own = policy_deletions(policies, now);
    lemma_days_of(policies, source);
    lemma_policy_deletions(policies, now, source, t);
    let last = own.len() as int;
    if default_days > 0 {
        assert(all[last].except == sources_of(policies));
    }
    if exists|k: int| 0 <= k < own.len() && takes(#[trigger] own[k], source, t) {
        let k = choose|k: int| 0 <= k < own.len() && takes(#[trigger] own[k], source, t);
        assert(all[k] == own[k]);
    }
    if exists|k: int| 0 <= k < all.len() && takes(#[trigger] all[k], source, t) {
        let k = choose|k: int| 0 <= k < all.len() && takes(#[trigger] all[k], source, t);
        if k < own.len() {
            assert(all[k] == own[k]);
        }
    }
    match days_of(policies, source) {
        Some(d) => {
            let i = choose|i: int|
                0 <= i < policies.len() && (#[trigger] policies[i]).source == source
                    && policies[i].days == d;
            assert forall|j: int| 0 <= j < policies.len() && (#[trigger] policies[j]).source
                == source implies j == i by {
                if j < i {
                    assert(policies[j].source != policies[i].source);
                }
                if i < j {
                    assert(policies[i].source != policies[j].source);
                }
            }
        },
        None => {
            assert forall|j: int| 0 <= j < policies.len() implies (#[trigger] policies[j]).source
                != source by {
                assert(sources_of(policies)[j] == policies[j].source);
            }
            if default_days > 0 && t < cutoff(now, default_days) {
                assert(takes(all[last], source, t));
            }
        },
    }
}

// ── The statements ───────────────────────────────────────────────────────────────────

pub open spec fn marks(n: nat) -> Seq<Seq<char>> {
    Seq::new(n, |i: int| "?"@)
}

/// The statement of a deletion, and its parameters.
pub open spec fn statement(d: DeletionView, before: Seq<char>) -> (Seq<char>, Seq<Seq<char>>) {
    match d.only {
        Some(source) => (
            "DELETE FROM episodic WHERE source = ? AND ts < ?::TIMESTAMPTZ"@,
            seq![source, before],
        ),
        None => if d.except.len() == 0 {
            ("DELETE FROM episodic WHERE ts < ?::TIMESTAMPTZ"@, seq![before])
        } else {
            (
                "DELETE FROM episodic WHERE ts < ?::TIMESTAMPTZ AND source NOT IN ("@ + joined(
                    marks(d.except.len()),
                    ", "@,
                ) + ")"@,
                seq![before] + d.except,
            )
        },
    }
}

/// Writes the statement of a deletion. There is none where the instant is not one of the calendar.
pub fn write_statement(d: &Deletion) -> (r: Option<(String, Vec<String>)>)
    ensures
        match (r, instant(d.before)) {
            (Some((sql, params)), Some(before)) => (sql@, views(params@)) == statement(d@, before),
            (None, None) => true,
            _ => false,
        },
{
    let before = match crate::time::text(d.before) {
        Some(t) => t,
        None => {
            return None;
        },
    };
    let mut params: Vec<String> = Vec::new();
    match &d.only {
        Some(source) => {
            params.push(source.clone());
            params.push(before);
            proof {
                assert(views(params@) =~= seq![source@, before@]);
            }
            Some(
                (
                    "DELETE FROM episodic WHERE source = ? AND ts < ?::TIMESTAMPTZ".to_owned(),
                    params,
                ),
            )
        },
        None => {
            proof {
                assert(views(d.except@).len() == d.except@.len());
            }
            if d.except.len() == 0 {
                params.push(before);
                proof {
                    assert(views(params@) =~= seq![before@]);
                }
                return Some(
                    ("DELETE FROM episodic WHERE ts < ?::TIMESTAMPTZ".to_owned(), params),
                );
            }
            let mut slots: Vec<String> = Vec::new();
            let mut i: usize = 0;
            params.push(before);
            let ghost all = views(d.except@);
            proof {
                assert(views(slots@) =~= marks(0));
                assert(views(params@) =~= seq![before@] + all.take(0));
            }
            while i < d.except.len()
                invariant
                    i <= d.except.len(),
                    all == views(d.except@),
                    views(slots@) == marks(i as nat),
                    views(params@) == seq![before@] + all.take(i as int),
                decreases d.except.len() - i,
            {
                let ghost s = slots@;
                let ghost p = params@;
                slots.push("?".to_owned());
                params.push(d.except[i].clone());
                i += 1;
                proof {
                    assert(views(slots@) =~= marks((i - 1) as nat).push("?"@));
                    assert(views(slots@) =~= marks(i as nat));
                    assert(views(params@) =~= views(p).push(all[i - 1]));
                    assert(views(params@) =~= seq![before@] + all.take(i as int));
                }
            }
            proof {
                assert(all.take(all.len() as int) =~= all);
            }
            let sql = text::cat3(
                "DELETE FROM episodic WHERE ts < ?::TIMESTAMPTZ AND source NOT IN (",
                text::join(&slots, ", ").as_str(),
                ")",
            );
            Some((sql, params))
        },
    }
}

} // verus!
