//! What a written row comes to in the indexes, the change feed and the graph.

use vstd::prelude::*;

use crate::engine::apply::{
    change_of, edge_of, edges_of, event_name, index_step_of, TripleView,
};
use crate::memory::cognition::{MemoryState, MemoryView, RowView};

verus! {

/// An active memory can be found by its own vector and its own words, in its scope, its project and
/// under its subject.
pub proof fn law_memories_are_indexed_as_they_are(row: RowView, scope_key: Seq<char>)
    requires
        row.memory.state == MemoryState::Active,
    ensures
        ({
            let step = index_step_of(row, scope_key);
            &&& step is Put
            &&& step->vector == row.embedding
            &&& step->entry.id == row.memory.id
            &&& step->entry.scope_key == scope_key
            &&& step->entry.project == row.memory.project
            &&& step->entry.subject == row.memory.subject
            &&& step->entry.content == row.memory.content
        }),
{
}

/// A change is told to those it concerns, under its memory, and says what became of it.
pub proof fn law_changes_say_what_became_of_a_memory(m: MemoryView, event: Seq<char>)
    ensures
        change_of(m, event).id == m.id,
        change_of(m, event).tenant_id == m.scope.tenant_id,
        change_of(m, event).user_id == m.scope.user_id,
        change_of(m, event).subject == m.subject,
        change_of(m, event).event == event,
        event_name(MemoryState::Active) == "upserted"@,
        event_name(MemoryState::Superseded) == "superseded"@,
        event_name(MemoryState::Expired) == "expired"@,
        event_name(MemoryState::Pending) == "proposed"@,
{
}

/// An active memory brings one edge for each triple that was read from it, from the subject to the
/// object, valid as long as the memory, and leading back to it; any other brings none, and none is
/// brought where the graph is not kept.
pub proof fn law_memories_bring_their_edges(
    m: MemoryView,
    triples: Seq<TripleView>,
    auto_graph: bool,
    i: int,
)
    ensures
        ({
            let edges = edges_of(m, triples, auto_graph);
            let brings = auto_graph && m.state == MemoryState::Active;
            &&& brings ==> edges.len() == triples.len()
            &&& !brings ==> edges.len() == 0
            &&& brings && 0 <= i < triples.len() ==> {
                &&& edges[i].src == triples[i].0
                &&& edges[i].relation == triples[i].1
                &&& edges[i].dst == triples[i].2
                &&& edges[i].source_memory_id == Some(m.id)
                &&& edges[i].valid_from == Some(m.valid_from)
                &&& edges[i].valid_to is None
                &&& edges[i].weight.bits == 0x3f80_0000
            }
        }),
{
}

/// The same triple of the same memory is the same edge, whoever reads it and whenever.
pub proof fn law_edges_are_the_same_everywhere(a: MemoryView, b: MemoryView, t: TripleView)
    requires
        a.id == b.id,
    ensures
        edge_of(a, t).id == edge_of(b, t).id,
{
}

} // verus!
