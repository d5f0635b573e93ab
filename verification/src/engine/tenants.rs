//! Keeping tenants apart.

use vstd::prelude::*;

use crate::engine::documents::event_views;
use crate::json;
use crate::json::{field_views, integer_of, with_field, Json, JsonView};
use crate::memory::event::{Event, EventView};
use crate::text;
use crate::text::{begins, opt_str_view, views};

verus! {

broadcast use vstd::string::group_string_axioms;

// ── Events ───────────────────────────────────────────────────────────────────────────

/// A payload with its tenant in it. What is no object is left as it is.
pub open spec fn tagged_payload(payload: JsonView, tenant: Seq<char>) -> JsonView {
    match payload {
        JsonView::Object(fields) => JsonView::Object(
            with_field(fields, "_tenant_id"@, JsonView::Str(tenant)),
        ),
        other => other,
    }
}

pub open spec fn tagged(e: EventView, tenant: Option<Seq<char>>) -> EventView {
    match tenant {
        Some(t) => EventView { payload: tagged_payload(e.payload, t), ..e },
        None => e,
    }
}

pub open spec fn all_tagged(events: Seq<EventView>, tenant: Option<Seq<char>>) -> Seq<EventView> {
    events.map_values(|e: EventView| tagged(e, tenant))
}

fn tag_payload(payload: Json, tenant: &str) -> (r: Json)
    ensures
        r@ == tagged_payload(payload@, tenant@),
{
    match payload {
        Json::Object(fields) => {
            let mut fields = fields;
            proof {
                assert(json::tree(payload)->Object_0 =~= field_views(fields@));
            }
            json::set_field(&mut fields, "_tenant_id", json::string(tenant));
            json::object(fields)
        },
        other => other,
    }
}

/// Marks events with the tenant that they belong to, before they are stored.
pub fn tag_events(events: &Vec<Event>, tenant: Option<&str>) -> (r: Vec<Event>)
    ensures
        event_views(r@) == all_tagged(event_views(events@), opt_str_view(tenant)),
{
    let ghost all = all_tagged(event_views(events@), opt_str_view(tenant));
    let mut out: Vec<Event> = Vec::new();
    let mut i: usize = 0;
    proof {
        assert(event_views(out@) =~= all.take(0));
    }
    while i < events.len()
        invariant
            i <= events.len(),
            all == all_tagged(event_views(events@), opt_str_view(tenant)),
            event_views(out@) == all.take(i as int),
        decreases events.len() - i,
    {
        let ghost before = out@;
        let mut e = events[i].copy();
        if let Some(t) = tenant {
            e.payload = tag_payload(events[i].payload.copy(), t);
        }
        proof {
            assert(event_views(events@)[i as int] == events@[i as int]@);
            assert(e@ == all[i as int]);
        }
        out.push(e);
        i += 1;
        proof {
            assert(event_views(out@) =~= event_views(before).push(all[i - 1]));
            assert(all.take(i as int) =~= all.take(i - 1).push(all[i - 1]));
        }
    }
    proof {
        assert(all.take(all.len() as int) =~= all);
    }
    out
}

/// Whatever a payload says, its tag is that of the tenant it came from, and nothing else in it
/// changes.
pub proof fn law_tags_cannot_be_forged(payload: JsonView, tenant: Seq<char>, key: Seq<char>)
    requires
        payload is Object,
    ensures
        tagged_payload(payload, tenant).field("_tenant_id"@) == Some(JsonView::Str(tenant)),
        key != "_tenant_id"@ ==> tagged_payload(payload, tenant).field(key) == payload.field(key),
{
    json::lemma_with_field(
        payload->Object_0,
        "_tenant_id"@,
        JsonView::Str(tenant),
        "_tenant_id"@,
    );
    json::lemma_with_field(payload->Object_0, "_tenant_id"@, JsonView::Str(tenant), key);
}

// ── Vectors ──────────────────────────────────────────────────────────────────────────

/// The metadata of a vector of some modality. What is no object is replaced by an empty one.
pub open spec fn modal_metadata(metadata: JsonView, modality: Seq<char>) -> JsonView {
    let fields = match metadata {
        JsonView::Object(fields) => fields,
        _ => seq![],
    };
    JsonView::Object(with_field(fields, "modality"@, JsonView::Str(modality)))
}

/// Puts the modality into the metadata of a vector.
pub fn with_modality(metadata: Json, modality: &str) -> (r: Json)
    ensures
        r@ == modal_metadata(metadata@, modality@),
{
    let mut fields: Vec<(String, Json)> = match metadata {
        Json::Object(f) => {
            proof {
                assert(json::tree(metadata)->Object_0 =~= field_views(f@));
            }
            f
        },
        _ => {
            let none: Vec<(String, Json)> = Vec::new();
            proof {
                assert(field_views(none@) =~= seq![]);
            }
            none
        },
    };
    json::set_field(&mut fields, "modality", json::string(modality));
    json::object(fields)
}

/// Has a field of the metadata the value that is asked for? Where none is, it has.
pub open spec fn field_fits(metadata: JsonView, key: Seq<char>, wanted: Option<Seq<char>>) -> bool {
    match wanted {
        Some(w) => json::opt_field(Some(metadata), key) == Some(JsonView::Str(w)),
        None => true,
    }
}

/// Is an entry from the source, and of the event type, that are asked for?
pub open spec fn fits(
    metadata: JsonView,
    source: Option<Seq<char>>,
    event_type: Option<Seq<char>>,
) -> bool {
    field_fits(metadata, "source"@, source) && field_fits(metadata, "event_type"@, event_type)
}

/// The tenant of an entry: the default one, where none is named.
pub open spec fn entry_tenant(metadata: JsonView) -> Seq<char> {
    match json::opt_field(Some(metadata), "tenant_id"@) {
        Some(JsonView::Str(t)) => t,
        _ => "default"@,
    }
}

fn has_value(metadata: &Json, key: &str, wanted: Option<&str>) -> (r: bool)
    ensures
        r == field_fits(metadata@, key@, opt_str_view(wanted)),
{
    match wanted {
        Some(w) => match metadata.get(key) {
            Some(Json::Str(s)) => text::same(s.as_str(), w),
            _ => false,
        },
        None => true,
    }
}

/// Is an entry one that is searched for?
pub fn semantic_filter(metadata: &Json, source: Option<&str>, event_type: Option<&str>) -> (r: bool)
    ensures
        r == fits(metadata@, opt_str_view(source), opt_str_view(event_type)),
{
    has_value(metadata, "source", source) && has_value(metadata, "event_type", event_type)
}

/// Is an entry one of the tenant, and one that is searched for?
pub fn semantic_filter_for_tenant(
    metadata: &Json,
    tenant: &str,
    source: Option<&str>,
    event_type: Option<&str>,
) -> (r: bool)
    ensures
        r == (entry_tenant(metadata@) == tenant@ && fits(
            metadata@,
            opt_str_view(source),
            opt_str_view(event_type),
        )),
{
    let own = match metadata.get("tenant_id") {
        Some(Json::Str(s)) => text::same(s.as_str(), tenant),
        _ => text::same("default", tenant),
    };
    own && semantic_filter(metadata, source, event_type)
}

// ── Agents ───────────────────────────────────────────────────────────────────────────

/// What stands between a tenant and an agent.
pub const TENANT_AGENT_SEP: char = '\u{1f}';

/// The prefix of the agents of a tenant.
pub open spec fn agent_prefix(tenant: Seq<char>) -> Seq<char> {
    tenant.push('\u{1f}')
}

pub open spec fn scoped(tenant: Seq<char>, agent: Seq<char>) -> Seq<char> {
    agent_prefix(tenant) + agent
}

/// The prefix of the agents of a tenant.
pub fn tenant_prefix(tenant: &str) -> (r: String)
    ensures
        r@ == agent_prefix(tenant@),
{
    let mut s = tenant.to_owned();
    s.push(TENANT_AGENT_SEP);
    s
}

/// An agent under the name that its state is kept by: no two tenants share one.
pub fn scoped_agent(tenant: &str, agent_id: &str) -> (r: String)
    ensures
        r@ == scoped(tenant@, agent_id@),
{
    text::cat(tenant_prefix(tenant).as_str(), agent_id)
}

/// Tenants never share an agent: the same name comes from the same tenant and the same agent. A
/// tenant that holds the separator in its own name is left out.
pub proof fn law_agents_are_kept_apart(
    tenant: Seq<char>,
    agent: Seq<char>,
    other_tenant: Seq<char>,
    other_agent: Seq<char>,
)
    requires
        scoped(tenant, agent) == scoped(other_tenant, other_agent),
        !tenant.contains('\u{1f}'),
        !other_tenant.contains('\u{1f}'),
    ensures
        tenant == other_tenant,
        agent == other_agent,
{
    let name = scoped(tenant, agent);
    let n = tenant.len();
    let m = other_tenant.len();
    assert(name[n as int] == '\u{1f}');
    assert(scoped(other_tenant, other_agent)[m as int] == '\u{1f}');
    if n < m {
        assert(scoped(other_tenant, other_agent)[n as int] == other_tenant[n as int]);
        assert(other_tenant.contains('\u{1f}'));
    }
    if m < n {
        assert(scoped(tenant, agent)[m as int] == tenant[m as int]);
        assert(tenant.contains('\u{1f}'));
    }
    assert forall|i: int| 0 <= i < n implies tenant[i] == other_tenant[i] by {
        assert(scoped(tenant, agent)[i] == tenant[i]);
        assert(scoped(other_tenant, other_agent)[i] == other_tenant[i]);
    }
    assert(tenant =~= other_tenant);
    assert(name.skip(n as int + 1) =~= agent);
    assert(scoped(other_tenant, other_agent).skip(n as int + 1) =~= other_agent);
}

/// The agents of a tenant among all, by their own names.
pub open spec fn own_agents(agents: Seq<Seq<char>>, tenant: Seq<char>) -> Seq<Seq<char>>
    decreases agents.len(),
{
    if agents.len() == 0 {
        seq![]
    } else {
        let before = own_agents(agents.drop_last(), tenant);
        if begins(agents.last(), agent_prefix(tenant)) {
            before.push(agents.last().skip(agent_prefix(tenant).len() as int))
        } else {
            before
        }
    }
}

/// Lists the agents of a tenant. Those of others are passed over.
pub fn list_agents_for_tenant(agents: &Vec<String>, tenant: &str) -> (r: Vec<String>)
    ensures
        views(r@) == own_agents(views(agents@), tenant@),
{
    let prefix = tenant_prefix(tenant);
    let ghost all = views(agents@);
    let mut out: Vec<String> = Vec::new();
    let mut i: usize = 0;
    proof {
        assert(all.take(0) =~= seq![]);
        assert(views(out@) =~= seq![]);
    }
    while i < agents.len()
        invariant
            i <= agents.len(),
            all == views(agents@),
            prefix@ == agent_prefix(tenant@),
            views(out@) == own_agents(all.take(i as int), tenant@),
        decreases agents.len() - i,
    {
        let ghost before = out@;
        proof {
            assert(all.take(i + 1).drop_last() =~= all.take(i as int));
            assert(all.take(i + 1).last() == agents@[i as int]@);
        }
        let cs = text::chars(agents[i].as_str());
        if let Some(rest) = text::strip_prefix(&cs, prefix.as_str()) {
            let name = text::string(rest);
            let ghost v = name@;
            out.push(name);
            proof {
                assert(views(out@) =~= views(before).push(v));
            }
        }
        i += 1;
    }
    proof {
        assert(all.take(all.len() as int) =~= all);
    }
    out
}

// ── Leaving and moving ───────────────────────────────────────────────────────────────

/// What erasing a tenant removed.
pub open spec fn tenant_erasure(
    tenant: Seq<char>,
    events: u64,
    memories: u64,
    state: u64,
    vectors: u64,
) -> JsonView {
    JsonView::Object(
        seq![
            ("tenant"@, JsonView::Str(tenant)),
            ("events_deleted"@, integer_of(events)),
            ("memories_deleted"@, integer_of(memories)),
            ("state_deleted"@, integer_of(state)),
            ("vectors_deleted"@, integer_of(vectors)),
        ],
    )
}

/// Sums up what erasing a tenant removed.
pub fn delete_tenant(tenant: &str, events: u64, memories: u64, state: u64, vectors: u64) -> (r: Json)
    ensures
        r@ == tenant_erasure(tenant@, events, memories, state, vectors),
{
    let mut fields: Vec<(String, Json)> = Vec::new();
    fields.push(("tenant".to_owned(), json::string(tenant)));
    fields.push(("events_deleted".to_owned(), json::integer(events)));
    fields.push(("memories_deleted".to_owned(), json::integer(memories)));
    fields.push(("state_deleted".to_owned(), json::integer(state)));
    fields.push(("vectors_deleted".to_owned(), json::integer(vectors)));
    proof {
        assert(JsonView::Object(field_views(fields@))->Object_0 =~= tenant_erasure(
            tenant@,
            events,
            memories,
            state,
            vectors,
        )->Object_0);
    }
    json::object(fields)
}

/// What erasing a person removed, and what it could not.
pub open spec fn user_erasure(tenant: Seq<char>, user: Seq<char>, memories: u64) -> JsonView {
    JsonView::Object(
        seq![
            ("tenant"@, JsonView::Str(tenant)),
            ("user_id"@, JsonView::Str(user)),
            ("memories_deleted"@, integer_of(memories)),
            (
                "note"@,
                JsonView::Str(
                    "episodic events and agent state are not user-scoped (no user_id column); erase user data carried in event payloads at the source, or use tenant erasure"@,
                ),
            ),
        ],
    )
}

/// Sums up what erasing a person removed.
pub fn delete_user(tenant: &str, user_id: &str, memories: u64) -> (r: Json)
    ensures
        r@ == user_erasure(tenant@, user_id@, memories),
{
    let mut fields: Vec<(String, Json)> = Vec::new();
    fields.push(("tenant".to_owned(), json::string(tenant)));
    fields.push(("user_id".to_owned(), json::string(user_id)));
    fields.push(("memories_deleted".to_owned(), json::integer(memories)));
    fields.push(
        (
            "note".to_owned(),
            json::string(
                "episodic events and agent state are not user-scoped (no user_id column); erase user data carried in event payloads at the source, or use tenant erasure",
            ),
        ),
    );
    proof {
        assert(field_views(fields@) =~= user_erasure(tenant@, user_id@, memories)->Object_0);
    }
    json::object(fields)
}

/// One entry of state in a snapshot: agent, key and value.
pub open spec fn state_entry(item: JsonView) -> Option<(Seq<char>, Seq<char>, JsonView)> {
    match item {
        JsonView::Array(parts) => if parts.len() >= 3 {
            match (parts[0], parts[1]) {
                (JsonView::Str(agent), JsonView::Str(key)) => Some((agent, key, parts[2])),
                _ => None,
            }
        } else {
            None
        },
        _ => None,
    }
}

pub open spec fn state_entries(items: Seq<JsonView>) -> Seq<(Seq<char>, Seq<char>, JsonView)>
    decreases items.len(),
{
    if items.len() == 0 {
        seq![]
    } else {
        let before = state_entries(items.drop_last());
        match state_entry(items.last()) {
            Some(e) => before.push(e),
            None => before,
        }
    }
}

/// The state of a snapshot.
pub open spec fn snapshot_state(snapshot: JsonView) -> Seq<(Seq<char>, Seq<char>, JsonView)> {
    match json::opt_field(Some(snapshot), "state"@) {
        Some(JsonView::Array(items)) => state_entries(items),
        _ => seq![],
    }
}

pub open spec fn entry_views(v: Seq<(String, String, Json)>) -> Seq<
    (Seq<char>, Seq<char>, JsonView),
> {
    v.map_values(|e: (String, String, Json)| (e.0@, e.1@, e.2@))
}

fn read_entry(item: &Json) -> (r: Option<(String, String, Json)>)
    ensures
        match (r, state_entry(item@)) {
            (Some(e), Some(v)) => (e.0@, e.1@, e.2@) == v,
            (None, None) => true,
            _ => false,
        },
{
    if let Json::Array(parts) = item {
        if parts.len() >= 3 {
            proof {
                assert(json::tree(*item)->Array_0[0] == parts@[0]@);
                assert(json::tree(*item)->Array_0[1] == parts@[1]@);
                assert(json::tree(*item)->Array_0[2] == parts@[2]@);
            }
            if let (Json::Str(agent), Json::Str(key)) = (&parts[0], &parts[1]) {
                return Some((agent.clone(), key.clone(), parts[2].copy()));
            }
        }
    }
    None
}

/// Reads the state of a snapshot. The agents keep the tenant in their names.
pub fn import_state(snapshot: &Json) -> (r: Vec<(String, String, Json)>)
    ensures
        entry_views(r@) == snapshot_state(snapshot@),
{
    let mut out: Vec<(String, String, Json)> = Vec::new();
    proof {
        assert(entry_views(out@) =~= seq![]);
    }
    if let Some(Json::Array(items)) = snapshot.get("state") {
        let ghost all = json::opt_field(Some(snapshot@), "state"@)->0->Array_0;
        let mut i: usize = 0;
        proof {
            assert(all.take(0) =~= seq![]);
        }
        while i < items.len()
            invariant
                i <= items.len(),
                all == json::tree(Json::Array(*items))->Array_0,
                entry_views(out@) == state_entries(all.take(i as int)),
            decreases items.len() - i,
        {
            let ghost before = out@;
            proof {
                assert(all.take(i + 1).drop_last() =~= all.take(i as int));
                assert(all.take(i + 1).last() == items@[i as int]@);
            }
            if let Some(e) = read_entry(&items[i]) {
                let ghost v = (e.0@, e.1@, e.2@);
                out.push(e);
                proof {
                    assert(entry_views(out@) =~= entry_views(before).push(v));
                }
            }
            i += 1;
        }
        proof {
            assert(all.take(all.len() as int) =~= all);
        }
    }
    out
}

/// Sums up what importing a snapshot brought.
pub fn import_tenant(events: u64, memories: u64, state: u64) -> (r: Json)
    ensures
        r@ == JsonView::Object(
            seq![
                ("events"@, integer_of(events)),
                ("memories"@, integer_of(memories)),
                ("state"@, integer_of(state)),
            ],
        ),
{
    json::object3(
        "events",
        json::integer(events),
        "memories",
        json::integer(memories),
        "state",
        json::integer(state),
    )
}

} // verus!
