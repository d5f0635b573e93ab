//! What is deleted and what is kept: retention, tenants, and the buffer of a batch.

use vstd::prelude::*;

use crate::engine::batch::{chunk_vectors, collides, empty_buffer, extended, BufferView, Key};
use crate::engine::retention::{
    days_of, deletions, distinct_sources, law_retention_keeps_what_it_promises,
    policies_among, policy_of, statement, stored_policies, takes, DeletionView,
    PolicyView,
};
use crate::engine::tenants::{
    agent_prefix, all_tagged, entry_tenant, fits, modal_metadata, own_agents, scoped, snapshot_state,
    state_entries, state_entry, tagged, tagged_payload, tenant_erasure, user_erasure,
};
use crate::json::{integer_of, lemma_with_field, lookup, JsonView};
use crate::memory::cognition::RowView;
use crate::memory::event::EventView;
use crate::text::{begins, joined};

verus! {

// ── Retention ────────────────────────────────────────────────────────────────────────

/// The events of a source with a policy are kept for the days it says, by the day of twenty-four
/// hours, and for ever where it says none; those of a source without one are kept as long as the
/// default says. Nothing is deleted earlier, and nothing is left longer.
pub proof fn law_events_are_kept_for_their_days(
    policies: Seq<PolicyView>,
    default_days: u32,
    now: i128,
    source: Seq<char>,
    t: int,
    i: int,
)
    requires
        distinct_sources(policies),
    ensures
        ({
            let gone = exists|k: int|
                0 <= k < deletions(policies, default_days, now).len() && takes(
                    #[trigger] deletions(policies, default_days, now)[k],
                    source,
                    t,
                );
            &&& 0 <= i < policies.len() && policies[i].source == source ==> (gone
                <==> policies[i].days > 0 && t < now - policies[i].days * 86_400_000_000_000)
            &&& (forall|k: int| 0 <= k < policies.len() ==> (#[trigger] policies[k]).source
                != source) ==> (gone <==> default_days > 0 && t < now - default_days
                * 86_400_000_000_000)
        }),
{
    law_retention_keeps_what_it_promises(policies, default_days, now, source, t);
    if 0 <= i < policies.len() && policies[i].source == source {
        lemma_policy_is_found(policies, i);
    }
    if forall|k: int| 0 <= k < policies.len() ==> (#[trigger] policies[k]).source != source {
        lemma_no_policy_is_found(policies, source);
    }
}

proof fn lemma_policy_is_found(policies: Seq<PolicyView>, i: int)
    requires
        distinct_sources(policies),
        0 <= i < policies.len(),
    ensures
        days_of(policies, policies[i].source) == Some(policies[i].days),
    decreases policies.len(),
{
    if i > 0 {
        let rest = policies.drop_first();
        assert(policies[0].source != policies[i].source);
        assert(rest[i - 1] == policies[i]);
        assert forall|a: int, b: int| 0 <= a < b < rest.len() implies (#[trigger] rest[a]).source
            != (#[trigger] rest[b]).source by {
            assert(policies[a + 1].source != policies[b + 1].source);
        }
        lemma_policy_is_found(rest, i - 1);
    }
}

proof fn lemma_no_policy_is_found(policies: Seq<PolicyView>, source: Seq<char>)
    requires
        forall|k: int| 0 <= k < policies.len() ==> (#[trigger] policies[k]).source != source,
    ensures
        days_of(policies, source) is None,
    decreases policies.len(),
{
    if policies.len() > 0 {
        let rest = policies.drop_first();
        assert forall|k: int| 0 <= k < rest.len() implies (#[trigger] rest[k]).source != source by {
            assert(policies[k + 1].source != source);
        }
        assert(policies[0].source != source);
        lemma_no_policy_is_found(rest, source);
    }
}

/// A deletion takes an event exactly where it is older, of the source that is named, where one is,
/// and of none that is excepted; its statement asks for just that, with the source, the instant and
/// the exceptions as its parameters.
pub proof fn law_statements_delete_what_is_meant(
    d: DeletionView,
    before: Seq<char>,
    source: Seq<char>,
    t: int,
)
    ensures
        takes(d, source, t) <==> t < d.before && (d.only is Some ==> d.only->0 == source)
            && !d.except.contains(source),
        d.only is Some ==> statement(d, before) == (
            "DELETE FROM episodic WHERE source = ? AND ts < ?::TIMESTAMPTZ"@,
            seq![d.only->0, before],
        ),
        d.only is None && d.except.len() == 0 ==> statement(d, before) == (
            "DELETE FROM episodic WHERE ts < ?::TIMESTAMPTZ"@,
            seq![before],
        ),
        d.only is None && d.except.len() > 0 ==> statement(d, before) == (
            "DELETE FROM episodic WHERE ts < ?::TIMESTAMPTZ AND source NOT IN ("@ + joined(
                Seq::new(d.except.len(), |i: int| "?"@),
                ", "@,
            ) + ")"@,
            seq![before] + d.except,
        ),
{
    assert(crate::engine::retention::marks(d.except.len()) =~= Seq::new(
        d.except.len(),
        |i: int| "?"@,
    ));
}

/// An entry is a policy exactly where it is a source and a whole number of days that fits, in that
/// order and with nothing else.
pub proof fn law_policies_are_read_as_written(source: JsonView, days: JsonView, more: Seq<JsonView>)
    ensures
        policy_of(JsonView::Array(seq![source, days])) is Some <==> source is Str && days is Number
            && days->Number_0.int is Some && 0 <= days->Number_0.int->0 <= 4294967295,
        policy_of(JsonView::Array(seq![source, days])) matches Some(p) ==> JsonView::Str(p.source)
            == source && days->Number_0.int == Some(p.days as int),
        more.len() != 2 ==> policy_of(JsonView::Array(more)) is None,
{
}

/// The policies that are stored are all read, in order, or none is: one entry that is no source with
/// a number of days spoils the list.
pub proof fn law_policies_are_all_read_or_none(items: Seq<JsonView>)
    ensures
        policies_among(items) is Some <==> forall|i: int|
            0 <= i < items.len() ==> policy_of(#[trigger] items[i]) is Some,
        policies_among(items) is Some ==> policies_among(items)->0.len() == items.len() && forall|
            i: int,
        |
            0 <= i < items.len() ==> policy_of(#[trigger] items[i]) == Some(
                policies_among(items)->0[i],
            ),
        stored_policies(Some(JsonView::Array(items))) == (if policies_among(items) is Some {
            policies_among(items)->0
        } else {
            seq![]
        }),
        stored_policies(None) == Seq::<PolicyView>::empty(),
    decreases items.len(),
{
    if items.len() > 0 {
        let rest = items.drop_last();
        law_policies_are_all_read_or_none(rest);
        assert(items[items.len() - 1] == items.last());
        assert forall|i: int| 0 <= i < rest.len() implies items[i] == #[trigger] rest[i] by {}
        if policies_among(items) is Some {
            let all = policies_among(items)->0;
            assert forall|i: int| 0 <= i < items.len() implies policy_of(#[trigger] items[i])
                == Some(all[i]) by {
                if i < rest.len() {
                    assert(rest[i] == items[i]);
                }
            }
        }
        if forall|i: int| 0 <= i < items.len() ==> policy_of(#[trigger] items[i]) is Some {
            assert forall|i: int| 0 <= i < rest.len() implies policy_of(
                #[trigger] rest[i],
            ) is Some by {
                assert(items[i] == rest[i]);
            }
        }
    }
}

// ── Tenants ──────────────────────────────────────────────────────────────────────────

/// A marked event has its tenant, and is otherwise as it came; without a tenant it is as it came.
pub proof fn law_marked_events_are_as_they_came(e: EventView, tenant: Option<Seq<char>>)
    ensures
        tenant is None ==> tagged(e, tenant) == e,
        tenant is Some ==> tagged(e, tenant) == (EventView {
            payload: tagged_payload(e.payload, tenant->0),
            ..e
        }),
        tenant is Some && e.payload is Object ==> tagged(e, tenant).payload.field("_tenant_id"@)
            == Some(JsonView::Str(tenant->0)),
{
    if let Some(t) = tenant {
        if e.payload is Object {
            crate::engine::tenants::law_tags_cannot_be_forged(e.payload, t, "_tenant_id"@);
        }
    }
}

/// Of several events each is marked, and all keep their order.
pub proof fn law_all_events_are_marked(events: Seq<EventView>, tenant: Option<Seq<char>>, i: int)
    requires
        0 <= i < events.len(),
    ensures
        all_tagged(events, tenant).len() == events.len(),
        all_tagged(events, tenant)[i] == tagged(events[i], tenant),
{
}

/// The metadata of a vector name its modality, and all else they said.
pub proof fn law_modalities_are_named(metadata: JsonView, modality: Seq<char>, key: Seq<char>)
    ensures
        modal_metadata(metadata, modality).field("modality"@) == Some(JsonView::Str(modality)),
        key != "modality"@ && metadata is Object ==> modal_metadata(metadata, modality).field(key)
            == metadata.field(key),
{
    let fields = match metadata {
        JsonView::Object(fields) => fields,
        _ => seq![],
    };
    lemma_with_field(fields, "modality"@, JsonView::Str(modality), "modality"@);
    lemma_with_field(fields, "modality"@, JsonView::Str(modality), key);
}

/// An entry is found exactly where it is from the source and of the type that are asked for, each
/// where it is asked for; it belongs to the tenant that it names, or to the default one.
pub proof fn law_entries_are_found_by_what_they_say(
    metadata: JsonView,
    source: Option<Seq<char>>,
    event_type: Option<Seq<char>>,
)
    ensures
        fits(metadata, source, event_type) <==> (source is Some ==> metadata.field("source"@)
            == Some(JsonView::Str(source->0))) && (event_type is Some ==> metadata.field(
            "event_type"@,
        ) == Some(JsonView::Str(event_type->0))),
        metadata.field("tenant_id"@) is Some && metadata.field("tenant_id"@)->0 is Str
            ==> entry_tenant(metadata) == metadata.field("tenant_id"@)->0->Str_0,
        metadata.field("tenant_id"@) is None ==> entry_tenant(metadata) == "default"@,
{
}

/// A tenant sees exactly its own agents, by the names that it gave them.
pub proof fn law_tenants_see_their_own_agents(
    agents: Seq<Seq<char>>,
    tenant: Seq<char>,
    agent: Seq<char>,
)
    ensures
        scoped(tenant, agent) == tenant.push('\u{1f}') + agent,
        own_agents(agents, tenant).contains(agent) <==> agents.contains(scoped(tenant, agent)),
    decreases agents.len(),
{
    let name = scoped(tenant, agent);
    let prefix = agent_prefix(tenant);
    let n = prefix.len() as int;
    assert(name.take(n) =~= prefix);
    assert(name.skip(n) =~= agent);
    if agents.len() > 0 {
        let rest = agents.drop_last();
        let last = agents.last();
        law_tenants_see_their_own_agents(rest, tenant, agent);
        let before = own_agents(rest, tenant);
        let after = own_agents(agents, tenant);
        assert(agents[agents.len() - 1] == last);
        if rest.contains(name) {
            let k = choose|k: int| 0 <= k < rest.len() && rest[k] == name;
            assert(agents[k] == name);
        }
        if agents.contains(name) && !rest.contains(name) {
            let k = choose|k: int| 0 <= k < agents.len() && agents[k] == name;
            assert(k == rest.len() || rest[k] == name);
            assert(last == name);
            assert(after[before.len() as int] == agent);
        }
        if before.contains(agent) {
            let k = choose|k: int| 0 <= k < before.len() && before[k] == agent;
            assert(after[k] == agent);
        }
        if after.contains(agent) && !before.contains(agent) {
            let k = choose|k: int| 0 <= k < after.len() && after[k] == agent;
            assert(k == before.len() || before[k] == agent);
            assert(begins(last, prefix) && last.skip(n) == agent);
            assert(last =~= last.take(n) + last.skip(n));
            assert(last == name);
        }
    }
}

/// What an erasure reports is what was removed, each under its name.
pub proof fn law_erasures_report_what_was_removed(
    tenant: Seq<char>,
    user: Seq<char>,
    events: u64,
    memories: u64,
    state: u64,
    vectors: u64,
)
    ensures
        ({
            let r = tenant_erasure(tenant, events, memories, state, vectors);
            &&& r.field("tenant"@) == Some(JsonView::Str(tenant))
            &&& r.field("events_deleted"@) == Some(integer_of(events))
            &&& r.field("memories_deleted"@) == Some(integer_of(memories))
            &&& r.field("state_deleted"@) == Some(integer_of(state))
            &&& r.field("vectors_deleted"@) == Some(integer_of(vectors))
        }),
        ({
            let r = user_erasure(tenant, user, memories);
            &&& r.field("tenant"@) == Some(JsonView::Str(tenant))
            &&& r.field("user_id"@) == Some(JsonView::Str(user))
            &&& r.field("memories_deleted"@) == Some(integer_of(memories))
        }),
{
    reveal_strlit("tenant");
    reveal_strlit("events_deleted");
    reveal_strlit("memories_deleted");
    reveal_strlit("state_deleted");
    reveal_strlit("vectors_deleted");
    reveal_strlit("user_id");
    assert("tenant"@.len() == 6 && "events_deleted"@.len() == 14 && "memories_deleted"@.len() == 16
        && "state_deleted"@.len() == 13 && "vectors_deleted"@.len() == 15 && "user_id"@.len() == 7);
    reveal_with_fuel(lookup, 6);
    let a = tenant_erasure(tenant, events, memories, state, vectors)->Object_0;
    let b = a.drop_first();
    assert(b[0] == a[1]);
    assert(b.drop_first()[0] == a[2]);
    assert(b.drop_first().drop_first()[0] == a[3]);
    assert(b.drop_first().drop_first().drop_first()[0] == a[4]);
    let c = user_erasure(tenant, user, memories)->Object_0;
    assert(c.drop_first()[0] == c[1]);
    assert(c.drop_first().drop_first()[0] == c[2]);
}

/// Every entry of state in a snapshot that names its agent and its key is brought in, with its
/// value; no other is.
pub proof fn law_snapshots_bring_their_state(
    items: Seq<JsonView>,
    agent: Seq<char>,
    key: Seq<char>,
    value: JsonView,
)
    ensures
        state_entries(items).contains((agent, key, value)) <==> exists|i: int|
            0 <= i < items.len() && entry_says(#[trigger] items[i], agent, key, value),
    decreases items.len(),
{
    let e = (agent, key, value);
    if items.len() > 0 {
        let rest = items.drop_last();
        let last = items.last();
        law_snapshots_bring_their_state(rest, agent, key, value);
        let before = state_entries(rest);
        let after = state_entries(items);
        assert(items[items.len() - 1] == last);
        if before.contains(e) {
            let k = choose|k: int| 0 <= k < before.len() && before[k] == e;
            assert(after[k] == e);
            let i = choose|i: int|
                0 <= i < rest.len() && entry_says(#[trigger] rest[i], agent, key, value);
            assert(items[i] == rest[i]);
        }
        if entry_says(last, agent, key, value) {
            assert(state_entry(last) == Some(e));
            assert(after[before.len() as int] == e);
        }
        if after.contains(e) && !before.contains(e) {
            let k = choose|k: int| 0 <= k < after.len() && after[k] == e;
            assert(k == before.len() || before[k] == e);
            assert(state_entry(last) == Some(e));
        }
        assert forall|i: int|
            0 <= i < items.len() && entry_says(
                #[trigger] items[i],
                agent,
                key,
                value,
            ) implies after.contains(e) by {
            if i < rest.len() {
                assert(rest[i] == items[i]);
            }
        }
    }
}

/// Does an entry name this agent and this key, with this value?
pub open spec fn entry_says(
    item: JsonView,
    agent: Seq<char>,
    key: Seq<char>,
    value: JsonView,
) -> bool {
    item is Array && item->Array_0.len() >= 3 && item->Array_0[0] == JsonView::Str(agent)
        && item->Array_0[1] == JsonView::Str(key) && item->Array_0[2] == value
}

/// The state of a snapshot is that of its field; a snapshot without one brings none.
pub proof fn law_snapshots_without_state_bring_none(snapshot: JsonView)
    ensures
        snapshot.field("state"@) is Some && snapshot.field("state"@)->0 is Array ==> snapshot_state(
            snapshot,
        ) == state_entries(snapshot.field("state"@)->0->Array_0),
        !(snapshot.field("state"@) is Some && snapshot.field("state"@)->0 is Array)
            ==> snapshot_state(snapshot).len() == 0,
{
}

// ── Batches ──────────────────────────────────────────────────────────────────────────

/// A buffer holds what was put into it, in order, and nothing is written twice or lost; it gives way
/// exactly where a subject comes that it holds already.
pub proof fn law_buffers_hold_what_was_planned(
    buffer: BufferView,
    key: Option<Key>,
    rows: Seq<RowView>,
    other: Key,
)
    ensures
        ({
            let after = extended(buffer, key, rows);
            let n = buffer.rows.len() as int;
            &&& after.rows.len() == n + rows.len()
            &&& after.rows.take(n) == buffer.rows && after.rows.skip(n) == rows
            &&& collides(after, Some(other)) <==> collides(buffer, Some(other)) || key == Some(other)
            &&& !collides(after, None)
            &&& !collides(empty_buffer(), Some(other))
            &&& empty_buffer().rows.len() == 0
        }),
{
    let after = extended(buffer, key, rows);
    let n = buffer.rows.len() as int;
    assert(after.rows.take(n) =~= buffer.rows);
    assert(after.rows.skip(n) =~= rows);
    if let Some(k) = key {
        if buffer.keys.contains(other) {
            let i = choose|i: int| 0 <= i < buffer.keys.len() && buffer.keys[i] == other;
            assert(after.keys[i] == other);
        }
        if k == other {
            assert(after.keys[buffer.keys.len() as int] == other);
        }
        if after.keys.contains(other) && !buffer.keys.contains(other) {
            let i = choose|i: int| 0 <= i < after.keys.len() && after.keys[i] == other;
            assert(i == buffer.keys.len() || buffer.keys[i] == other);
        }
    }
}

/// Each text of a chunk has the vector that was made for it; where the provider failed, or gave
/// another number of them, none has one: no text gets the vector of another.
pub proof fn law_vectors_go_with_their_texts(reply: Option<Seq<Seq<u32>>>, expected: nat, i: int)
    requires
        0 <= i < expected,
    ensures
        chunk_vectors(reply, expected).len() == expected,
        reply is Some && reply->0.len() == expected ==> chunk_vectors(reply, expected)[i] == Some(
            reply->0[i],
        ),
        reply is None || reply->0.len() != expected ==> chunk_vectors(reply, expected)[i] is None,
{
}

} // verus!
