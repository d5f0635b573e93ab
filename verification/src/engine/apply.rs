//! Applying planned rows: what each one does to the derived indexes, the change feed and the graph.

use vstd::prelude::*;

use crate::ids::{named_uuid, uuid_named};
use crate::memory::cognition::{
    copy_bits, copy_opt, vector_view, Memory, MemoryRow, MemoryState, MemoryView, RowView,
};
use crate::memory::lexical::LexicalEntry;
use crate::runtime::types::{tenant_of, tenant_or_default};
use crate::score::Score;
use crate::text;
use crate::text::opt_view;

verus! {

broadcast use vstd::string::group_string_axioms;

// ── The indexes ──────────────────────────────────────────────────────────────────────

/// What a row does to the vector index and the lexical index.
#[derive(Debug)]
pub enum IndexStep {
    /// The memory can be found: by its vector, where it has one, and by its words.
    Put { vector: Option<Vec<u32>>, entry: LexicalEntry },
    /// The memory is dropped from both.
    Forget { id: u128 },
}

pub struct EntryView {
    pub id: u128,
    pub scope_key: Seq<char>,
    pub project: Option<Seq<char>>,
    pub subject: Option<Seq<char>>,
    pub content: Seq<char>,
}

impl View for LexicalEntry {
    type V = EntryView;

    open spec fn view(&self) -> EntryView {
        EntryView {
            id: self.id,
            scope_key: self.scope_key@,
            project: opt_view(self.project),
            subject: opt_view(self.subject),
            content: self.content@,
        }
    }
}

pub enum IndexStepView {
    Put { vector: Option<Seq<u32>>, entry: EntryView },
    Forget { id: u128 },
}

impl View for IndexStep {
    type V = IndexStepView;

    open spec fn view(&self) -> IndexStepView {
        match *self {
            IndexStep::Put { vector, entry } => IndexStepView::Put {
                vector: vector_view(vector),
                entry: entry@,
            },
            IndexStep::Forget { id } => IndexStepView::Forget { id },
        }
    }
}

/// The entry of a memory in the lexical index.
pub open spec fn entry_of(m: MemoryView, scope_key: Seq<char>) -> EntryView {
    EntryView {
        id: m.id,
        scope_key,
        project: m.project,
        subject: m.subject,
        content: m.content,
    }
}

pub open spec fn index_step_of(row: RowView, scope_key: Seq<char>) -> IndexStepView {
    if row.memory.state == MemoryState::Active {
        IndexStepView::Put { vector: row.embedding, entry: entry_of(row.memory, scope_key) }
    } else {
        IndexStepView::Forget { id: row.memory.id }
    }
}

/// The entry of a memory in the lexical index.
pub fn lexical_entry(m: &Memory, scope_key: String) -> (r: LexicalEntry)
    ensures
        r@ == entry_of(m@, scope_key@),
{
    LexicalEntry {
        id: m.id,
        scope_key,
        project: copy_opt(&m.project),
        subject: copy_opt(&m.subject),
        content: m.content.clone(),
    }
}

/// What a row does to the indexes. `scope_key` is the partition of the memory's scope.
pub fn index_step(row: &MemoryRow, scope_key: String) -> (r: IndexStep)
    ensures
        r@ == index_step_of(row@, scope_key@),
{
    match row.memory.state {
        MemoryState::Active => {
            let vector = match &row.embedding {
                Some(v) => Some(copy_bits(v)),
                None => None,
            };
            IndexStep::Put { vector, entry: lexical_entry(&row.memory, scope_key) }
        },
        _ => IndexStep::Forget { id: row.memory.id },
    }
}

/// Only active memories can be found: any other row takes its memory out of both indexes.
pub proof fn law_only_active_memories_are_indexed(row: RowView, scope_key: Seq<char>)
    ensures
        index_step_of(row, scope_key) is Put <==> row.memory.state == MemoryState::Active,
        index_step_of(row, scope_key) is Forget ==> index_step_of(row, scope_key)->Forget_id
            == row.memory.id,
{
}

// ── The change feed ──────────────────────────────────────────────────────────────────

/// A change in the life of a memory.
#[derive(Debug)]
pub struct MemoryChange {
    pub id: u128,
    pub tenant_id: String,
    pub user_id: Option<String>,
    /// `upserted`, `superseded`, `expired` or `proposed`.
    pub event: String,
    pub subject: Option<String>,
}

pub struct ChangeView {
    pub id: u128,
    pub tenant_id: Seq<char>,
    pub user_id: Option<Seq<char>>,
    pub event: Seq<char>,
    pub subject: Option<Seq<char>>,
}

impl View for MemoryChange {
    type V = ChangeView;

    open spec fn view(&self) -> ChangeView {
        ChangeView {
            id: self.id,
            tenant_id: self.tenant_id@,
            user_id: opt_view(self.user_id),
            event: self.event@,
            subject: opt_view(self.subject),
        }
    }
}

pub open spec fn event_name(state: MemoryState) -> Seq<char> {
    match state {
        MemoryState::Active => "upserted"@,
        MemoryState::Superseded => "superseded"@,
        MemoryState::Expired => "expired"@,
        MemoryState::Pending => "proposed"@,
    }
}

pub open spec fn change_of(m: MemoryView, event: Seq<char>) -> ChangeView {
    ChangeView {
        id: m.id,
        tenant_id: m.scope.tenant_id,
        user_id: m.scope.user_id,
        event,
        subject: m.subject,
    }
}

fn change(m: &Memory, event: &str) -> (r: MemoryChange)
    ensures
        r@ == change_of(m@, event@),
{
    MemoryChange {
        id: m.id,
        tenant_id: m.scope.tenant_id.clone(),
        user_id: copy_opt(&m.scope.user_id),
        event: event.to_owned(),
        subject: copy_opt(&m.subject),
    }
}

/// The change that a written memory is announced by.
pub fn publish_memory_change(m: &Memory) -> (r: MemoryChange)
    ensures
        r@ == change_of(m@, event_name(m.state)),
{
    match m.state {
        MemoryState::Active => change(m, "upserted"),
        MemoryState::Superseded => change(m, "superseded"),
        MemoryState::Expired => change(m, "expired"),
        MemoryState::Pending => change(m, "proposed"),
    }
}

/// The change that an expired memory is announced by, where it was known before.
pub fn expiry_change(before: Option<&Memory>) -> (r: Option<MemoryChange>)
    ensures
        match (r, before) {
            (Some(c), Some(m)) => c@ == change_of(m@, "expired"@),
            (None, None) => true,
            _ => false,
        },
{
    match before {
        Some(m) => Some(change(m, "expired")),
        None => None,
    }
}

// ── The graph ────────────────────────────────────────────────────────────────────────

/// An edge of the graph of memories.
#[derive(Debug)]
pub struct Edge {
    pub id: u128,
    pub src: String,
    pub relation: String,
    pub dst: String,
    pub weight: Score,
    /// The memory that the edge was read from.
    pub source_memory_id: Option<u128>,
    pub valid_from: Option<i128>,
    pub valid_to: Option<i128>,
}

pub struct EdgeView {
    pub id: u128,
    pub src: Seq<char>,
    pub relation: Seq<char>,
    pub dst: Seq<char>,
    pub weight: Score,
    pub source_memory_id: Option<u128>,
    pub valid_from: Option<i128>,
    pub valid_to: Option<i128>,
}

impl View for Edge {
    type V = EdgeView;

    open spec fn view(&self) -> EdgeView {
        EdgeView {
            id: self.id,
            src: self.src@,
            relation: self.relation@,
            dst: self.dst@,
            weight: self.weight,
            source_memory_id: self.source_memory_id,
            valid_from: self.valid_from,
            valid_to: self.valid_to,
        }
    }
}

pub open spec fn edge_views(v: Seq<Edge>) -> Seq<EdgeView> {
    v.map_values(|e: Edge| e@)
}

impl Edge {
    pub fn copy(&self) -> (r: Edge)
        ensures
            r@ == self@,
    {
        Edge {
            id: self.id,
            src: self.src.clone(),
            relation: self.relation.clone(),
            dst: self.dst.clone(),
            weight: self.weight,
            source_memory_id: self.source_memory_id,
            valid_from: self.valid_from,
            valid_to: self.valid_to,
        }
    }
}

/// The weight of an edge that nothing else is known of: one.
pub open spec fn unit_weight() -> Score {
    Score { bits: 0x3f80_0000 }
}

/// A triple that was read from a text: subject, relation, object.
pub type Triple = (String, String, String);

pub type TripleView = (Seq<char>, Seq<char>, Seq<char>);

pub open spec fn triple_views(v: Seq<Triple>) -> Seq<TripleView> {
    v.map_values(|t: Triple| (t.0@, t.1@, t.2@))
}

/// The edge of a triple that was read from a memory. Its id rests on the memory and the triple
/// alone, so every replica has the same graph.
pub open spec fn edge_of(m: MemoryView, t: TripleView) -> EdgeView {
    EdgeView {
        id: uuid_named(m.id, t.0 + "|"@ + t.1 + "|"@ + t.2),
        src: t.0,
        relation: t.1,
        dst: t.2,
        weight: unit_weight(),
        source_memory_id: Some(m.id),
        valid_from: Some(m.valid_from),
        valid_to: None,
    }
}

/// The edges that a written memory brings into the graph of its tenant: none unless it is active,
/// and the graph is kept by itself.
pub open spec fn edges_of(m: MemoryView, triples: Seq<TripleView>, auto_graph: bool) -> Seq<
    EdgeView,
> {
    if auto_graph && m.state == MemoryState::Active {
        triples.map_values(|t: TripleView| edge_of(m, t))
    } else {
        seq![]
    }
}

fn edge(m: &Memory, t: &Triple) -> (r: Edge)
    ensures
        r@ == edge_of(m@, (t.0@, t.1@, t.2@)),
{
    let name = text::cat5(t.0.as_str(), "|", t.1.as_str(), "|", t.2.as_str());
    Edge {
        id: named_uuid(m.id, name.as_str()),
        src: t.0.clone(),
        relation: t.1.clone(),
        dst: t.2.clone(),
        weight: Score::one(),
        source_memory_id: Some(m.id),
        valid_from: Some(m.valid_from),
        valid_to: None,
    }
}

/// The edges of a written memory, from the triples of its content, and the tenant they belong to.
pub fn auto_edges(m: &Memory, triples: &Vec<Triple>, auto_graph: bool) -> (r: (String, Vec<Edge>))
    ensures
        r.0@ == tenant_or_default(m@.scope.tenant_id),
        edge_views(r.1@) == edges_of(m@, triple_views(triples@), auto_graph),
{
    let tenant = tenant_of(m.scope.tenant_id.as_str());
    let mut out: Vec<Edge> = Vec::new();
    let wanted = match m.state {
        MemoryState::Active => auto_graph,
        _ => false,
    };
    if wanted {
        let ghost all = triple_views(triples@).map_values(|t: TripleView| edge_of(m@, t));
        let mut i: usize = 0;
        proof {
            assert(edge_views(out@) =~= all.take(0));
        }
        while i < triples.len()
            invariant
                i <= triples.len(),
                all == triple_views(triples@).map_values(|t: TripleView| edge_of(m@, t)),
                edge_views(out@) == all.take(i as int),
            decreases triples.len() - i,
        {
            let ghost before = out@;
            out.push(edge(m, &triples[i]));
            i += 1;
            proof {
                assert(triple_views(triples@)[i - 1] == (
                    triples@[i - 1].0@,
                    triples@[i - 1].1@,
                    triples@[i - 1].2@,
                ));
                assert(edge_views(out@) =~= edge_views(before).push(all[i - 1]));
                assert(all.take(i as int) =~= all.take(i - 1).push(all[i - 1]));
            }
        }
        proof {
            assert(all.take(all.len() as int) =~= all);
        }
    } else {
        proof {
            assert(edge_views(out@) =~= seq![]);
        }
    }
    (tenant, out)
}

} // verus!
