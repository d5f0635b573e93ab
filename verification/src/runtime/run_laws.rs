//! What holds of the records of a run, of what sets one off, and of a workflow.

use vstd::prelude::*;

use crate::ids::uuid_notation;
use crate::json::{lemma_with_field, lookup, with_field, JsonView};
use crate::runtime::ledger::{
    created, fired, in_state, listed_trigger, server_url, servers_in, step_payload, trigger_key,
    verdict_patch, verdict_record, workflow_closing,
};
use crate::runtime::types::{
    no_patch, patched, status_name, status_named, tenant_or_default, terminal, PatchView, RunStatus,
    RunView,
};
use crate::runtime::workflow::{
    among_first, execution_order, named, precedes, ready, runnable, runs_in_order, NodeView,
};
use crate::runtime::workflow_run::{child_entry, child_step, WorkflowView};

verus! {

// ── Runs ─────────────────────────────────────────────────────────────────────────────

/// A new run is what was asked for, and nothing of it is done: it is pending, has not started, and
/// has no result. A tenant that is not named is the default one.
pub proof fn law_new_runs_are_pending(
    id: u128,
    tenant: Seq<char>,
    agent_id: Option<Seq<char>>,
    parent_run_id: Option<u128>,
    input: JsonView,
    now: i128,
)
    ensures
        ({
            let run = created(id, tenant, agent_id, parent_run_id, input, now);
            &&& run.id == id && run.agent_id == agent_id && run.parent_run_id == parent_run_id
            &&& run.input == input
            &&& tenant.len() > 0 ==> run.tenant_id == tenant
            &&& tenant.len() == 0 ==> run.tenant_id == "default"@
            &&& run.status == RunStatus::Pending && !terminal(run.status)
            &&& run.result == JsonView::Null && run.cursor == JsonView::Null && run.error is None
            &&& run.created_at == now && run.updated_at == now
            &&& run.started_at is None && run.ended_at is None
        }),
{
}

/// A patch changes what it names, and leaves the rest of a run as it is.
pub proof fn law_patches_change_what_they_name(run: RunView, patch: PatchView, now: i128)
    ensures
        ({
            let after = patched(run, patch, now);
            &&& after.id == run.id && after.tenant_id == run.tenant_id
            &&& after.agent_id == run.agent_id && after.parent_run_id == run.parent_run_id
            &&& after.input == run.input && after.created_at == run.created_at
            &&& after.updated_at == now
            &&& patch.status is Some ==> after.status == patch.status->0
            &&& patch.status is None ==> after.status == run.status
            &&& patch.result is Some ==> after.result == patch.result->0
            &&& patch.result is None ==> after.result == run.result
            &&& patch.error is Some ==> after.error == patch.error
            &&& patch.error is None ==> after.error == run.error
            &&& patch.cursor is Some ==> after.cursor == patch.cursor->0
            &&& patch.cursor is None ==> after.cursor == run.cursor
            &&& patch.started_at is Some ==> after.started_at == patch.started_at
            &&& patch.started_at is None ==> after.started_at == run.started_at
            &&& patch.ended_at is Some ==> after.ended_at == patch.ended_at
            &&& patch.ended_at is None ==> after.ended_at == run.ended_at
        }),
        patched(run, no_patch(), now) == (RunView { updated_at: now, ..run }),
{
}

/// A run is over exactly where it has succeeded, has failed or was cancelled; one that waits for
/// approval is not.
pub proof fn law_runs_are_over_when_they_ended(s: RunStatus)
    ensures
        terminal(s) <==> !(s is Pending || s is Running || s is WaitingApproval),
        status_named(status_name(s)) == s,
{
    crate::runtime::types::law_status_round_trips(s);
}

/// A step says all that was logged of it; only the run and the tenant it belongs to are written over
/// it. What is no object is kept as its value.
pub proof fn law_steps_say_what_was_logged(
    run: u128,
    tenant: Seq<char>,
    payload: JsonView,
    name: Seq<char>,
)
    ensures
        payload is Object && name != "_session_id"@ && name != "_tenant_id"@ ==> step_payload(
            run,
            tenant,
            payload,
        ).field(name) == payload.field(name),
        !(payload is Object) ==> step_payload(run, tenant, payload).field("value"@) == Some(
            payload,
        ),
{
    reveal_strlit("_session_id");
    reveal_strlit("_tenant_id");
    reveal_strlit("value");
    assert("_session_id"@.len() == 11 && "_tenant_id"@.len() == 10 && "value"@.len() == 5);
    let fields = match payload {
        JsonView::Object(fields) => fields,
        _ => seq![("value"@, payload)],
    };
    let key = if payload is Object {
        name
    } else {
        "value"@
    };
    let s = JsonView::Str(uuid_notation(run));
    let t = JsonView::Str(tenant_or_default(tenant));
    lemma_with_field(fields, "_session_id"@, s, key);
    lemma_with_field(with_field(fields, "_session_id"@, s), "_tenant_id"@, t, key);
    reveal_with_fuel(lookup, 2);
}

// ── Approvals ────────────────────────────────────────────────────────────────────────

/// An approved run goes on, and is not over; a rejected one is cancelled, and ends now. Nothing else
/// of it changes.
pub proof fn law_verdicts_decide_the_run(run: RunView, approved: bool, now: i128)
    ensures
        ({
            let after = patched(run, verdict_patch(approved, now), now);
            &&& approved ==> after == (RunView {
                status: RunStatus::Running,
                updated_at: now,
                ..run
            })
            &&& !approved ==> after == (RunView {
                status: RunStatus::Cancelled,
                ended_at: Some(now),
                updated_at: now,
                ..run
            })
            &&& in_state(Some(verdict_record(approved)), "rejected"@) == !approved
        }),
{
    reveal_strlit("approved");
    reveal_strlit("rejected");
    assert("approved"@[0] == 'a' && "rejected"@[0] == 'r');
}

// ── Triggers ─────────────────────────────────────────────────────────────────────────

/// A trigger fires on the events that it names, both by source and by type, and on no others; what
/// it does not name, or names with a star, it takes as it comes. It starts the agent it names.
pub proof fn law_triggers_fire_on_what_they_name(
    trigger: JsonView,
    source: Seq<char>,
    event_type: Seq<char>,
)
    ensures
        ({
            let s = trigger.field("source"@);
            let t = trigger.field("event_type"@);
            let a = trigger.field("agent_id"@);
            let by_source = s is Some && s->0 is Str ==> s->0 == JsonView::Str("*"@) || s->0
                == JsonView::Str(source);
            let by_type = t is Some && t->0 is Str ==> t->0 == JsonView::Str("*"@) || t->0
                == JsonView::Str(event_type);
            &&& fired(trigger, source, event_type) is Some <==> by_source && by_type
            &&& by_source && by_type && a is Some && a->0 is Str ==> a == Some(
                JsonView::Str(fired(trigger, source, event_type)->0),
            )
            &&& by_source && by_type && !(a is Some && a->0 is Str) ==> fired(
                trigger,
                source,
                event_type,
            ) == Some("trigger"@)
        }),
{
}

/// The triggers of a tenant stand under its name; without a name they stand under `default`.
pub proof fn law_triggers_stand_under_their_tenant(tenant: Seq<char>)
    ensures
        tenant.len() > 0 ==> trigger_key(tenant) == "__trigger:"@ + tenant,
        tenant.len() == 0 ==> trigger_key(tenant) == "__trigger:"@ + "default"@,
{
}

/// A listed trigger has its name, and is otherwise as it was registered.
pub proof fn law_listed_triggers_have_their_name(
    fields: Seq<(Seq<char>, JsonView)>,
    name: Seq<char>,
    key: Seq<char>,
)
    ensures
        listed_trigger(JsonView::Object(fields), name).field("name"@) == Some(JsonView::Str(name)),
        key != "name"@ ==> listed_trigger(JsonView::Object(fields), name).field(key)
            == JsonView::Object(fields).field(key),
{
    lemma_with_field(fields, "name"@, JsonView::Str(name), "name"@);
    lemma_with_field(fields, "name"@, JsonView::Str(name), key);
}

/// A tool server is listed, under its name and with its address, exactly where its record has one.
pub proof fn law_servers_with_an_address_are_listed(
    entries: Seq<(Seq<char>, Option<JsonView>)>,
    name: Seq<char>,
    url: Seq<char>,
)
    ensures
        servers_in(entries).contains((name, url)) <==> exists|i: int|
            0 <= i < entries.len() && (#[trigger] entries[i]).0 == name && entries[i].1 is Some
                && entries[i].1->0.field("url"@) == Some(JsonView::Str(url)),
    decreases entries.len(),
{
    if entries.len() > 0 {
        let rest = entries.drop_last();
        let e = entries.last();
        law_servers_with_an_address_are_listed(rest, name, url);
        let before = servers_in(rest);
        let after = servers_in(entries);
        assert(entries[entries.len() - 1] == e);
        let x = (name, url);
        if before.contains(x) {
            let k = choose|k: int| 0 <= k < before.len() && before[k] == x;
            assert(after[k] == x);
            let i = choose|i: int|
                0 <= i < rest.len() && (#[trigger] rest[i]).0 == name && rest[i].1 is Some
                    && rest[i].1->0.field("url"@) == Some(JsonView::Str(url));
            assert(entries[i] == rest[i]);
        }
        if server_url(e.1) == Some(url) && e.0 == name {
            assert(after[before.len() as int] == x);
        }
        if after.contains(x) && !before.contains(x) {
            let k = choose|k: int| 0 <= k < after.len() && after[k] == x;
            assert(k == before.len() || before[k] == x);
            assert(k == before.len());
        }
        assert forall|i: int|
            0 <= i < entries.len() && (#[trigger] entries[i]).0 == name && entries[i].1 is Some
                && entries[i].1->0.field("url"@) == Some(
                JsonView::Str(url),
            ) implies after.contains(x) by {
            if i < rest.len() {
                assert(rest[i] == entries[i]);
            }
        }
    }
}

// ── Workflows ────────────────────────────────────────────────────────────────────────

/// The order of a workflow has every node once, and each node that another one waits for before it.
pub proof fn law_dependencies_come_first(nodes: Seq<NodeView>, q: Seq<int>, p: int, d: int)
    requires
        execution_order(nodes, q),
        0 <= p < q.len(),
        0 <= d < nodes[q[p]].deps.len(),
        forall|a: int, b: int|
            0 <= a < b < nodes.len() ==> (#[trigger] nodes[a]).id != (#[trigger] nodes[b]).id,
    ensures
        q.len() == nodes.len(),
        q.no_duplicates(),
        exists|e: int|
            0 <= e < p && 0 <= #[trigger] q[e] < nodes.len() && nodes[q[e]].id
                == nodes[q[p]].deps[d],
{
    let id = nodes[q[p]].deps[d];
    assert(ready(nodes, q, q[p], p));
    lemma_name_is_a_nodes(nodes, id);
    let j = named(nodes, id)->0;
    assert(among_first(q, p, j));
    let e = choose|e: int| 0 <= e < p && e < q.len() && #[trigger] q[e] == j;
    assert(nodes[q[e]].id == id);
}

proof fn lemma_name_is_a_nodes(nodes: Seq<NodeView>, id: Seq<char>)
    ensures
        named(nodes, id) is Some ==> 0 <= named(nodes, id)->0 < nodes.len() && nodes[named(
            nodes,
            id,
        )->0].id == id,
        named(nodes, id) is None ==> forall|k: int|
            0 <= k < nodes.len() ==> (#[trigger] nodes[k]).id != id,
    decreases nodes.len(),
{
    if nodes.len() > 0 && nodes.last().id != id {
        let rest = nodes.drop_last();
        lemma_name_is_a_nodes(rest, id);
        if named(nodes, id) is None {
            assert forall|k: int| 0 <= k < nodes.len() implies (#[trigger] nodes[k]).id != id by {
                if k < rest.len() {
                    assert(rest[k] == nodes[k]);
                }
            }
        }
    }
}

/// Of two nodes that wait for nothing, the one that is listed first runs first.
pub proof fn law_free_nodes_run_in_their_order(
    nodes: Seq<NodeView>,
    q: Seq<int>,
    a: int,
    b: int,
)
    requires
        execution_order(nodes, q),
        0 <= a < q.len(),
        0 <= b < q.len(),
        nodes[q[a]].deps.len() == 0,
        nodes[q[b]].deps.len() == 0,
        q[a] < q[b],
    ensures
        a < b,
{
    if b < a {
        assert(precedes(nodes, q, q[b], q[a]));
        assert forall|t: int| #[trigger] ready(nodes, q, q[b], t) implies ready(
            nodes,
            q,
            q[a],
            t,
        ) by {}
    }
}

/// A node that waits for nothing runs before every node that waits.
pub proof fn law_free_nodes_do_not_wait(nodes: Seq<NodeView>, q: Seq<int>, a: int, b: int)
    requires
        execution_order(nodes, q),
        0 <= a < q.len(),
        0 <= b < q.len(),
        nodes[q[a]].deps.len() == 0,
        nodes[q[b]].deps.len() > 0,
    ensures
        a < b,
{
    assert(!ready(nodes, q, q[b], 0)) by {
        assert(nodes[q[b]].deps[0] == nodes[q[b]].deps[0]);
    }
    assert(ready(nodes, q, q[a], 0));
    if b < a {
        assert(precedes(nodes, q, q[b], q[a]));
        assert forall|t: int| #[trigger] ready(nodes, q, q[b], t) implies ready(
            nodes,
            q,
            q[a],
            t,
        ) by {}
        assert(ready(nodes, q, q[b], 0) == ready(nodes, q, q[a], 0));
    }
    assert(a != b);
}

/// A workflow with a node that waits for one that is not there cannot run.
pub proof fn law_unknown_dependencies_are_refused(nodes: Seq<NodeView>, i: int, d: int)
    requires
        0 <= i < nodes.len(),
        0 <= d < nodes[i].deps.len(),
        forall|k: int| 0 <= k < nodes.len() ==> (#[trigger] nodes[k]).id != nodes[i].deps[d],
    ensures
        !runnable(nodes),
{
    lemma_name_is_a_nodes(nodes, nodes[i].deps[d]);
    assert(named(nodes, nodes[i].deps[d]) is None) by {
        if named(nodes, nodes[i].deps[d]) is Some {
            assert(nodes[named(nodes, nodes[i].deps[d])->0].id == nodes[i].deps[d]);
        }
    }
    if runnable(nodes) {
        let q = choose|q: Seq<int>| #[trigger] runs_in_order(nodes, q) && q.len() == nodes.len();
        lemma_order_has_all(q, nodes.len() as int, i);
        let p = choose|p: int| 0 <= p < q.len() && #[trigger] q[p] == i;
        assert(ready(nodes, q, q[p], p));
        assert(nodes[i].deps[d] == nodes[q[p]].deps[d]);
    }
}

/// A workflow with two nodes that wait for each other cannot run, and neither can one with a node
/// that waits for itself.
pub proof fn law_circles_are_refused(nodes: Seq<NodeView>, i: int, d: int, j: int, e: int)
    requires
        forall|a: int, b: int|
            0 <= a < b < nodes.len() ==> (#[trigger] nodes[a]).id != (#[trigger] nodes[b]).id,
        0 <= i < nodes.len(),
        0 <= j < nodes.len(),
        0 <= d < nodes[i].deps.len(),
        0 <= e < nodes[j].deps.len(),
        nodes[i].deps[d] == nodes[j].id,
        nodes[j].deps[e] == nodes[i].id,
    ensures
        !runnable(nodes),
{
    lemma_name_is_a_nodes(nodes, nodes[j].id);
    lemma_name_is_a_nodes(nodes, nodes[i].id);
    lemma_only_one(nodes, i);
    lemma_only_one(nodes, j);
    if runnable(nodes) {
        let q = choose|q: Seq<int>| #[trigger] runs_in_order(nodes, q) && q.len() == nodes.len();
        lemma_order_has_all(q, nodes.len() as int, i);
        lemma_order_has_all(q, nodes.len() as int, j);
        let a = choose|a: int| 0 <= a < q.len() && #[trigger] q[a] == i;
        let b = choose|b: int| 0 <= b < q.len() && #[trigger] q[b] == j;
        assert(ready(nodes, q, q[a], a));
        assert(ready(nodes, q, q[b], b));
        assert(named(nodes, nodes[q[a]].deps[d]) == Some(j));
        assert(named(nodes, nodes[q[b]].deps[e]) == Some(i));
        assert(among_first(q, a, j));
        assert(among_first(q, b, i));
        let x = choose|x: int| 0 <= x < a && x < q.len() && #[trigger] q[x] == j;
        let y = choose|y: int| 0 <= y < b && y < q.len() && #[trigger] q[y] == i;
        assert(x == b && y == a);
    }
}

proof fn lemma_only_one(nodes: Seq<NodeView>, i: int)
    requires
        forall|a: int, b: int|
            0 <= a < b < nodes.len() ==> (#[trigger] nodes[a]).id != (#[trigger] nodes[b]).id,
        0 <= i < nodes.len(),
    ensures
        named(nodes, nodes[i].id) == Some(i),
{
    lemma_name_is_a_nodes(nodes, nodes[i].id);
    let found = named(nodes, nodes[i].id);
    if found is Some {
        let k = found->0;
        if k < i {
            assert(nodes[k].id != nodes[i].id);
        }
        if i < k {
            assert(nodes[i].id != nodes[k].id);
        }
    } else {
        assert(nodes[i].id != nodes[i].id);
    }
}

proof fn lemma_order_has_all(q: Seq<int>, n: int, x: int)
    requires
        q.no_duplicates(),
        q.len() == n,
        forall|p: int| 0 <= p < q.len() ==> 0 <= #[trigger] q[p] < n,
        0 <= x < n,
    ensures
        exists|p: int| 0 <= p < q.len() && #[trigger] q[p] == x,
{
    broadcast use vstd::seq_lib::seq_to_set_is_finite;

    q.unique_seq_to_set();
    vstd::set_lib::lemma_int_range(0, n);
    let all = vstd::set_lib::set_int_range(0, n);
    assert(q.to_set().subset_of(all));
    vstd::set_lib::lemma_subset_equality(q.to_set(), all);
    assert(q.to_set().contains(x));
    assert(q.contains(x));
}

/// A workflow runs its nodes in their order, goes on while all have succeeded and one is left, and
/// stops at the first that has not.
pub proof fn law_workflows_run_until_one_fails(w: WorkflowView, status: RunStatus, child: JsonView)
    requires
        w.next() is Some,
    ensures
        w.ended.len() < w.order.len(),
        w.next()->0 == w.order[w.ended.len() as int],
        !w.failed(),
        ({
            let after = WorkflowView {
                ended: w.ended.push(status),
                children: w.children.push(child),
                ..w
            };
            &&& after.failed() <==> status != RunStatus::Succeeded
            &&& after.next() is Some <==> status == RunStatus::Succeeded && w.ended.len() + 1
                < w.order.len()
        }),
{
    let after = WorkflowView {
        ended: w.ended.push(status),
        children: w.children.push(child),
        ..w
    };
    let n = w.ended.len() as int;
    assert(after.ended[n] == status);
    assert forall|i: int| 0 <= i < n implies after.ended[i] == RunStatus::Succeeded by {
        assert(after.ended[i] == w.ended[i]);
    }
}

/// A workflow has succeeded where all its nodes have, and has failed otherwise; its result lists the
/// runs of all nodes that ran, either way.
pub proof fn law_workflows_end_as_their_nodes(w: WorkflowView, now: i128)
    ensures
        ({
            let p = workflow_closing(w.failed(), w.children, now);
            &&& p.status == Some(RunStatus::Succeeded) <==> forall|i: int|
                0 <= i < w.ended.len() ==> w.ended[i] == RunStatus::Succeeded
            &&& p.status == Some(RunStatus::Succeeded) || p.status == Some(RunStatus::Failed)
            &&& p.status == Some(RunStatus::Failed) <==> p.error is Some
            &&& p.result is Some && p.result->0.field("children"@) == Some(
                JsonView::Array(w.children),
            )
            &&& p.ended_at == Some(now)
        }),
{
}

/// The entry and the step of a node's run name the node and the run, and the step how it ended.
pub proof fn law_children_are_on_record(node: Seq<char>, run: u128, status: RunStatus)
    ensures
        child_entry(node, run).field("node"@) == Some(JsonView::Str(node)),
        child_entry(node, run).field("run_id"@) == Some(JsonView::Str(uuid_notation(run))),
        child_step(node, run, status).field("node"@) == Some(JsonView::Str(node)),
        child_step(node, run, status).field("child_run"@) == Some(
            JsonView::Str(uuid_notation(run)),
        ),
        child_step(node, run, status).field("status"@) == Some(JsonView::Str(status_name(status))),
{
    reveal_strlit("node");
    reveal_strlit("run_id");
    reveal_strlit("child_run");
    reveal_strlit("status");
    assert("node"@.len() == 4 && "run_id"@.len() == 6 && "child_run"@.len() == 9 && "status"@.len()
        == 6);
    reveal_with_fuel(lookup, 4);
    let a = child_entry(node, run)->Object_0;
    assert(a.drop_first()[0] == a[1]);
    let b = child_step(node, run, status)->Object_0;
    assert(b.drop_first()[0] == b[1]);
    assert(b.drop_first().drop_first()[0] == b[2]);
}

} // verus!
