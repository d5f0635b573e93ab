//! Memories: distilled facts with two time axes.
//!
//! A memory is true from `valid_from` until `valid_to`, and was recorded at `created_at`. Nothing
//! is overwritten: a newer version closes the older one and points back at it. Times are
//! nanoseconds since the Unix epoch.

use vstd::prelude::*;

use crate::json::{Json, JsonView};
use crate::score::Score;
use crate::text;
use crate::text::opt_view;

verus! {

broadcast use vstd::string::group_string_axioms;

/// Whose memories these are. All four parts together name one scope.
#[derive(Debug)]
pub struct MemoryScope {
    pub tenant_id: String,
    pub user_id: Option<String>,
    pub agent_id: Option<String>,
    pub session_id: Option<String>,
}

pub struct ScopeView {
    pub tenant_id: Seq<char>,
    pub user_id: Option<Seq<char>>,
    pub agent_id: Option<Seq<char>>,
    pub session_id: Option<Seq<char>>,
}

impl View for MemoryScope {
    type V = ScopeView;

    open spec fn view(&self) -> ScopeView {
        ScopeView {
            tenant_id: self.tenant_id@,
            user_id: opt_view(self.user_id),
            agent_id: opt_view(self.agent_id),
            session_id: opt_view(self.session_id),
        }
    }
}

/// A copy of an optional string.
pub fn copy_opt(o: &Option<String>) -> (r: Option<String>)
    ensures
        opt_view(r) == opt_view(*o),
{
    match o {
        Some(s) => Some(s.clone()),
        None => None,
    }
}

/// Do two optional strings agree?
pub fn same_opt(a: &Option<String>, b: &Option<String>) -> (r: bool)
    ensures
        r == (opt_view(*a) == opt_view(*b)),
{
    match (a, b) {
        (Some(x), Some(y)) => text::same(x.as_str(), y.as_str()),
        (None, None) => true,
        _ => false,
    }
}

impl MemoryScope {
    pub fn copy(&self) -> (r: MemoryScope)
        ensures
            r@ == self@,
    {
        MemoryScope {
            tenant_id: self.tenant_id.clone(),
            user_id: copy_opt(&self.user_id),
            agent_id: copy_opt(&self.agent_id),
            session_id: copy_opt(&self.session_id),
        }
    }

    /// Is this the same scope?
    pub fn equal(&self, other: &MemoryScope) -> (r: bool)
        ensures
            r == (self@ == other@),
    {
        text::same(self.tenant_id.as_str(), other.tenant_id.as_str()) && same_opt(
            &self.user_id,
            &other.user_id,
        ) && same_opt(&self.agent_id, &other.agent_id) && same_opt(
            &self.session_id,
            &other.session_id,
        )
    }

    /// The scope of a user of the default tenant.
    pub fn user(user: &str) -> (r: MemoryScope)
        ensures
            r@ == (ScopeView {
                tenant_id: "default"@,
                user_id: Some(user@),
                agent_id: None,
                session_id: None,
            }),
    {
        MemoryScope {
            tenant_id: "default".to_owned(),
            user_id: Some(user.to_owned()),
            agent_id: None,
            session_id: None,
        }
    }

    /// The scope of a whole tenant.
    pub fn tenant(tenant: &str) -> (r: MemoryScope)
        ensures
            r@ == (ScopeView {
                tenant_id: tenant@,
                user_id: None,
                agent_id: None,
                session_id: None,
            }),
    {
        MemoryScope {
            tenant_id: tenant.to_owned(),
            user_id: None,
            agent_id: None,
            session_id: None,
        }
    }
}

/// Where a memory is in its life.
#[derive(Debug, Clone, Copy, PartialEq, Eq, Structural)]
pub enum MemoryState {
    /// Proposed, and not yet believed.
    Pending,
    Active,
    /// Replaced by a newer version.
    Superseded,
    /// Retired without a replacement.
    Expired,
}

/// What adding a memory came to.
#[derive(Debug, Clone, Copy, PartialEq, Eq, Structural)]
pub enum MemoryOutcome {
    /// Nothing like it was there.
    Inserted,
    /// It was there already.
    Confirmed,
    /// It replaced what was there for its subject.
    Superseded,
    /// It was joined with a near duplicate.
    Merged,
    /// It contradicts what is there, and a person has to decide.
    Conflict,
}

/// A memory.
#[derive(Debug)]
pub struct Memory {
    pub id: u128,
    pub scope: MemoryScope,
    pub subject: Option<String>,
    pub content: String,
    pub mem_type: String,
    pub importance: Score,
    pub state: MemoryState,
    pub version: u64,
    pub project: Option<String>,
    /// The memory that this one replaced.
    pub supersedes: Option<u128>,
    pub valid_from: i128,
    pub valid_to: Option<i128>,
    pub created_at: i128,
    pub updated_at: i128,
    /// The events that it was distilled from.
    pub source_event_ids: Vec<u128>,
    pub metadata: Json,
}

pub struct MemoryView {
    pub id: u128,
    pub scope: ScopeView,
    pub subject: Option<Seq<char>>,
    pub content: Seq<char>,
    pub mem_type: Seq<char>,
    pub importance: Score,
    pub state: MemoryState,
    pub version: u64,
    pub project: Option<Seq<char>>,
    pub supersedes: Option<u128>,
    pub valid_from: i128,
    pub valid_to: Option<i128>,
    pub created_at: i128,
    pub updated_at: i128,
    pub source_event_ids: Seq<u128>,
    pub metadata: JsonView,
}

impl View for Memory {
    type V = MemoryView;

    open spec fn view(&self) -> MemoryView {
        MemoryView {
            id: self.id,
            scope: self.scope@,
            subject: opt_view(self.subject),
            content: self.content@,
            mem_type: self.mem_type@,
            importance: self.importance,
            state: self.state,
            version: self.version,
            project: opt_view(self.project),
            supersedes: self.supersedes,
            valid_from: self.valid_from,
            valid_to: self.valid_to,
            created_at: self.created_at,
            updated_at: self.updated_at,
            source_event_ids: self.source_event_ids@,
            metadata: self.metadata@,
        }
    }
}

/// A copy of a list of numbers.
pub fn copy_ids(v: &Vec<u128>) -> (r: Vec<u128>)
    ensures
        r@ == v@,
{
    let mut out: Vec<u128> = Vec::new();
    let mut i: usize = 0;
    while i < v.len()
        invariant
            i <= v.len(),
            out@ == v@.take(i as int),
        decreases v.len() - i,
    {
        out.push(v[i]);
        i += 1;
        proof {
            assert(v@.take(i as int) =~= v@.take(i - 1).push(v@[i - 1]));
        }
    }
    proof {
        assert(v@.take(v@.len() as int) =~= v@);
    }
    out
}

/// A copy of a vector.
pub fn copy_bits(v: &Vec<u32>) -> (r: Vec<u32>)
    ensures
        r@ == v@,
{
    let mut out: Vec<u32> = Vec::new();
    let mut i: usize = 0;
    while i < v.len()
        invariant
            i <= v.len(),
            out@ == v@.take(i as int),
        decreases v.len() - i,
    {
        out.push(v[i]);
        i += 1;
        proof {
            assert(v@.take(i as int) =~= v@.take(i - 1).push(v@[i - 1]));
        }
    }
    proof {
        assert(v@.take(v@.len() as int) =~= v@);
    }
    out
}

/// A new memory: active, true since it was created, of the ordinary kind.
pub open spec fn new_memory(id: u128, scope: ScopeView, content: Seq<char>, now: i128) -> MemoryView {
    MemoryView {
        id,
        scope,
        subject: None,
        content,
        mem_type: "semantic"@,
        importance: Score { bits: 0x3f00_0000 },
        state: MemoryState::Active,
        version: 1,
        project: None,
        supersedes: None,
        valid_from: now,
        valid_to: None,
        created_at: now,
        updated_at: now,
        source_event_ids: seq![],
        metadata: JsonView::Object(seq![]),
    }
}

fn no_metadata() -> (r: Json)
    ensures
        r@ == JsonView::Object(seq![]),
{
    let fields: Vec<(String, Json)> = Vec::new();
    proof {
        assert(crate::json::field_views(fields@) =~= seq![]);
    }
    crate::json::object(fields)
}

impl Memory {
    /// A new memory, as it is created at `now`.
    pub fn new(id: u128, scope: MemoryScope, content: String, now: i128) -> (r: Memory)
        ensures
            r@ == new_memory(id, scope@, content@, now),
    {
        let ids: Vec<u128> = Vec::new();
        proof {
            assert(ids@ =~= seq![]);
        }
        Memory {
            id,
            scope,
            subject: None,
            content,
            mem_type: "semantic".to_owned(),
            importance: Score::half(),
            state: MemoryState::Active,
            version: 1,
            project: None,
            supersedes: None,
            valid_from: now,
            valid_to: None,
            created_at: now,
            updated_at: now,
            source_event_ids: ids,
            metadata: no_metadata(),
        }
    }

    pub fn copy(&self) -> (r: Memory)
        ensures
            r@ == self@,
    {
        Memory {
            id: self.id,
            scope: self.scope.copy(),
            subject: copy_opt(&self.subject),
            content: self.content.clone(),
            mem_type: self.mem_type.clone(),
            importance: self.importance,
            state: self.state,
            version: self.version,
            project: copy_opt(&self.project),
            supersedes: self.supersedes,
            valid_from: self.valid_from,
            valid_to: self.valid_to,
            created_at: self.created_at,
            updated_at: self.updated_at,
            source_event_ids: copy_ids(&self.source_event_ids),
            metadata: self.metadata.copy(),
        }
    }
}

pub open spec fn memory_views(v: Seq<Memory>) -> Seq<MemoryView> {
    v.map_values(|m: Memory| m@)
}

/// What is known of a memory that is to be added.
#[derive(Debug)]
pub struct MemoryInput {
    pub scope: MemoryScope,
    pub subject: Option<String>,
    pub content: String,
    pub importance: Option<Score>,
    pub source_event_ids: Vec<u128>,
    pub metadata: Json,
    pub mem_type: Option<String>,
    pub valid_from: Option<i128>,
    pub project: Option<String>,
}

pub struct InputView {
    pub scope: ScopeView,
    pub subject: Option<Seq<char>>,
    pub content: Seq<char>,
    pub importance: Option<Score>,
    pub source_event_ids: Seq<u128>,
    pub metadata: JsonView,
    pub mem_type: Option<Seq<char>>,
    pub valid_from: Option<i128>,
    pub project: Option<Seq<char>>,
}

impl View for MemoryInput {
    type V = InputView;

    open spec fn view(&self) -> InputView {
        InputView {
            scope: self.scope@,
            subject: opt_view(self.subject),
            content: self.content@,
            importance: self.importance,
            source_event_ids: self.source_event_ids@,
            metadata: self.metadata@,
            mem_type: opt_view(self.mem_type),
            valid_from: self.valid_from,
            project: opt_view(self.project),
        }
    }
}

/// An input of which nothing is known but its scope and content.
pub open spec fn new_input(scope: ScopeView, content: Seq<char>) -> InputView {
    InputView {
        scope,
        subject: None,
        content,
        importance: None,
        source_event_ids: seq![],
        metadata: JsonView::Object(seq![]),
        mem_type: None,
        valid_from: None,
        project: None,
    }
}

impl MemoryInput {
    /// An input of which nothing else is known.
    pub fn new(scope: MemoryScope, content: String) -> (r: MemoryInput)
        ensures
            r@ == new_input(scope@, content@),
    {
        let ids: Vec<u128> = Vec::new();
        proof {
            assert(ids@ =~= seq![]);
        }
        MemoryInput {
            scope,
            subject: None,
            content,
            importance: None,
            source_event_ids: ids,
            metadata: no_metadata(),
            mem_type: None,
            valid_from: None,
            project: None,
        }
    }
}

pub open spec fn input_views(v: Seq<MemoryInput>) -> Seq<InputView> {
    v.map_values(|i: MemoryInput| i@)
}

/// A memory as it is written, with its embedding where it has one: the bits of single-precision
/// numbers.
#[derive(Debug)]
pub struct MemoryRow {
    pub memory: Memory,
    pub embedding: Option<Vec<u32>>,
}

pub struct RowView {
    pub memory: MemoryView,
    pub embedding: Option<Seq<u32>>,
}

pub open spec fn vector_view(o: Option<Vec<u32>>) -> Option<Seq<u32>> {
    match o {
        Some(v) => Some(v@),
        None => None,
    }
}

impl View for MemoryRow {
    type V = RowView;

    open spec fn view(&self) -> RowView {
        RowView { memory: self.memory@, embedding: vector_view(self.embedding) }
    }
}

pub open spec fn row_views(v: Seq<MemoryRow>) -> Seq<RowView> {
    v.map_values(|r: MemoryRow| r@)
}

/// A memory that was added, and what that came to.
#[derive(Debug)]
pub struct MemoryAdd {
    pub memory: Memory,
    pub outcome: MemoryOutcome,
}

/// A memory that a search found.
#[derive(Debug)]
pub struct MemoryHit {
    pub memory: Memory,
    pub score: Score,
    /// How similar its vector is to that of the query.
    pub similarity: Option<Score>,
    /// How well its words match those of the query.
    pub lexical: Option<Score>,
}

pub struct HitView {
    pub memory: MemoryView,
    pub score: Score,
    pub similarity: Option<Score>,
    pub lexical: Option<Score>,
}

impl View for MemoryHit {
    type V = HitView;

    open spec fn view(&self) -> HitView {
        HitView {
            memory: self.memory@,
            score: self.score,
            similarity: self.similarity,
            lexical: self.lexical,
        }
    }
}

pub open spec fn hit_views(v: Seq<MemoryHit>) -> Seq<HitView> {
    v.map_values(|h: MemoryHit| h@)
}

impl MemoryHit {
    pub fn copy(&self) -> (r: MemoryHit)
        ensures
            r@ == self@,
    {
        MemoryHit {
            memory: self.memory.copy(),
            score: self.score,
            similarity: self.similarity,
            lexical: self.lexical,
        }
    }
}

/// Was a memory believed true at an instant? It holds from `valid_from` on, up to `valid_to`.
pub open spec fn holds_at(m: MemoryView, t: i128) -> bool {
    m.valid_from <= t && match m.valid_to {
        Some(end) => t < end,
        None => true,
    }
}

} // verus!
