//! Adding a memory: confirm, supersede, merge, or insert.

use vstd::prelude::*;

use crate::error::{Error, ErrorView};
use crate::json::{Json, JsonView};
use crate::memory::cognition::{
    copy_ids, copy_opt, memory_views, new_memory, row_views, vector_view, HitView,
    InputView, Memory, MemoryAdd, MemoryHit, MemoryInput, MemoryOutcome, MemoryRow, MemoryState,
    MemoryView, RowView, ScopeView,
};
use crate::memory::facts::{
    attributed, fact_errors, has_provenance, validate, FactRules, FactValidation, RulesView,
};
use crate::runtime::types::{tenant_of, tenant_or_default};
use crate::score::{at_least, larger, Score};
use crate::text;
use crate::text::{joined, opt_view, trimmed, views};

verus! {

broadcast use vstd::string::group_string_axioms;

// ── Governance ───────────────────────────────────────────────────────────────────────

/// What the writes of a tenant are held to.
#[derive(Debug, Clone, Copy)]
pub struct GovernanceRules {
    /// Must a write say where it comes from?
    pub require_provenance: bool,
    pub fact_validation: FactValidation,
}

/// Nothing, or what is wrong with a write that is accepted all the same.
pub open spec fn governed(
    rules: GovernanceRules,
    facts: RulesView,
    subject: Option<Seq<char>>,
    metadata: JsonView,
    sources: nat,
) -> Result<Seq<Seq<char>>, ErrorView> {
    let errors = fact_errors(facts, subject, metadata);
    if rules.require_provenance && !attributed(metadata, sources) {
        Err(
            ErrorView::Validation(
                "this tenant requires provenance: set `metadata.provenance.source` (or supply                  `source_event_ids`) so the fact can be traced back to where it came from"@,
            ),
        )
    } else if rules.fact_validation == FactValidation::Off || errors.len() == 0 {
        Ok(seq![])
    } else if rules.fact_validation == FactValidation::Strict {
        Err(ErrorView::Validation(joined(errors, "; "@)))
    } else {
        Ok(errors)
    }
}

/// Holds a write to the rules of its tenant: attribution, then the shape of facts. What comes back
/// are the errors of a write that is accepted in spite of them.
pub fn check_governance(
    rules: &GovernanceRules,
    facts: &FactRules,
    subject: Option<&str>,
    metadata: &Json,
    source_event_ids: &[u128],
) -> (r: Result<Vec<String>, Error>)
    ensures
        match (
            r,
            governed(
                *rules,
                facts@,
                text::opt_str_view(subject),
                metadata@,
                source_event_ids@.len(),
            ),
        ) {
            (Ok(warnings), Ok(expected)) => views(warnings@) == expected,
            (Err(e), Err(expected)) => e@ == expected,
            _ => false,
        },
{
    if rules.require_provenance && !has_provenance(metadata, source_event_ids) {
        return Err(
            Error::Validation(
                "this tenant requires provenance: set `metadata.provenance.source` (or supply                  `source_event_ids`) so the fact can be traced back to where it came from".to_owned(),
            ),
        );
    }
    if rules.fact_validation.is_off() {
        let none: Vec<String> = Vec::new();
        proof {
            assert(views(none@) =~= seq![]);
        }
        return Ok(none);
    }
    let errors = validate(facts, subject, metadata);
    if errors.len() > 0 && rules.fact_validation == FactValidation::Strict {
        return Err(Error::Validation(text::join(&errors, "; ")));
    }
    proof {
        if errors@.len() == 0 {
            assert(views(errors@) =~= seq![]);
        }
    }
    Ok(errors)
}

/// An unconfigured tenant accepts every write.
pub proof fn law_permissive_tenants_accept_all(
    facts: RulesView,
    subject: Option<Seq<char>>,
    metadata: JsonView,
    sources: nat,
)
    ensures
        governed(
            GovernanceRules { require_provenance: false, fact_validation: FactValidation::Off },
            facts,
            subject,
            metadata,
            sources,
        ) == Ok::<_, ErrorView>(Seq::<Seq<char>>::empty()),
{
}

/// What `warn` lets through with a warning is what `strict` refuses.
pub proof fn law_warnings_are_what_strict_refuses(
    require_provenance: bool,
    facts: RulesView,
    subject: Option<Seq<char>>,
    metadata: JsonView,
    sources: nat,
)
    ensures
        ({
            let warn = governed(
                GovernanceRules { require_provenance, fact_validation: FactValidation::Warn },
                facts,
                subject,
                metadata,
                sources,
            );
            let strict = governed(
                GovernanceRules { require_provenance, fact_validation: FactValidation::Strict },
                facts,
                subject,
                metadata,
                sources,
            );
            strict is Err <==> (warn is Err || warn->Ok_0.len() > 0)
        }),
{
}

// ── The boundary between two versions ────────────────────────────────────────────────

/// The instant at which a new version takes over from one that was valid since `previous`. It is
/// strictly after that: a version with an empty interval could never be asked for.
pub open spec fn boundary(requested: Option<i128>, previous: Option<i128>, recorded_at: i128) -> int {
    let candidate = match requested {
        Some(t) => t as int,
        None => recorded_at as int,
    };
    match previous {
        Some(prev) if candidate <= prev => if recorded_at >= prev + 1000 {
            recorded_at as int
        } else {
            prev + 1000
        },
        _ => candidate,
    }
}

/// Picks the boundary. Where the requested instant cannot separate the versions, the change became
/// known when it was recorded; a microsecond is the least distance.
pub fn valid_boundary(requested: Option<i128>, previous: Option<i128>, recorded_at: i128) -> (r:
    i128)
    requires
        previous is Some ==> previous->0 <= i128::MAX - 1000,
    ensures
        r == boundary(requested, previous, recorded_at),
{
    let candidate: i128 = match requested {
        Some(t) => t,
        None => recorded_at,
    };
    match previous {
        Some(prev) => {
            if candidate <= prev {
                if recorded_at >= prev + 1000 {
                    recorded_at
                } else {
                    prev + 1000
                }
            } else {
                candidate
            }
        },
        None => candidate,
    }
}

/// A new version takes over strictly after the start of the old one.
pub proof fn law_boundary_is_after_the_previous_version(
    requested: Option<i128>,
    previous: i128,
    recorded_at: i128,
)
    ensures
        boundary(requested, Some(previous), recorded_at) > previous,
{
}

// ── Planning a write ─────────────────────────────────────────────────────────────────

/// The settings that planning reads.
#[derive(Debug, Clone, Copy)]
pub struct PlanConfig {
    pub default_importance: Score,
    /// Is a contradiction left for a person to resolve?
    pub contradiction_review: bool,
    /// How similar a near duplicate is, at least.
    pub dedup_threshold: Score,
}

/// An input as planning uses it: with a tenant, and with the normalised subject, where it has one
/// that is not empty.
pub open spec fn prepared(input: InputView, normalized: Option<Seq<char>>) -> InputView {
    InputView {
        scope: ScopeView { tenant_id: tenant_or_default(input.scope.tenant_id), ..input.scope },
        subject: match normalized {
            Some(s) if s.len() > 0 => Some(s),
            _ => None,
        },
        ..input
    }
}

/// Fills in the tenant, and puts the normalised subject in place. `normalized` is the normal form
/// of the input's subject.
pub fn prepare(input: MemoryInput, normalized: Option<String>) -> (r: MemoryInput)
    ensures
        r@ == prepared(input@, opt_view(normalized)),
{
    let subject = match normalized {
        Some(s) => if text::chars(s.as_str()).len() > 0 {
            Some(s)
        } else {
            None
        },
        None => None,
    };
    let mut scope = input.scope;
    scope.tenant_id = tenant_of(scope.tenant_id.as_str());
    MemoryInput { scope, subject, ..input }
}

/// Fills in the tenant and the normalised subject, and holds the write to the rules of its tenant.
/// What comes back is the input that planning works on.
pub fn receive(
    rules: &GovernanceRules,
    facts: &FactRules,
    input: MemoryInput,
    normalized: Option<String>,
) -> (r: Result<MemoryInput, Error>)
    ensures
        ({
            let ready = prepared(input@, opt_view(normalized));
            match (
                r,
                governed(
                    *rules,
                    facts@,
                    ready.subject,
                    ready.metadata,
                    ready.source_event_ids.len(),
                ),
            ) {
                (Ok(p), Ok(_)) => p@ == ready,
                (Err(e), Err(expected)) => e@ == expected,
                _ => false,
            }
        }),
{
    let ready = prepare(input, normalized);
    let subject = match &ready.subject {
        Some(s) => Some(s.as_str()),
        None => None,
    };
    match check_governance(
        rules,
        facts,
        subject,
        &ready.metadata,
        ready.source_event_ids.as_slice(),
    ) {
        Ok(_) => Ok(ready),
        Err(e) => Err(e),
    }
}

/// What planning has to read before it can decide.
#[derive(Debug, Clone, Copy, PartialEq, Eq, Structural)]
pub enum Lookup {
    /// The active memories of the subject.
    Subject,
    /// The memory nearest to the embedding.
    Nearest,
    /// Nothing.
    Nothing,
}

/// A subject is authoritative; only a memory without one is compared by its embedding.
pub fn lookup(input: &MemoryInput, embedded: bool) -> (r: Lookup)
    ensures
        r == if input@.subject is Some {
            Lookup::Subject
        } else if embedded {
            Lookup::Nearest
        } else {
            Lookup::Nothing
        },
{
    if input.subject.is_some() {
        Lookup::Subject
    } else if embedded {
        Lookup::Nearest
    } else {
        Lookup::Nothing
    }
}

/// What was found.
pub enum Found {
    /// The active memories of the subject, and the stored embedding of the first.
    Subject { actives: Vec<Memory>, stored: Option<Vec<u32>> },
    /// The memory nearest to the embedding.
    Nearest { hit: Option<MemoryHit> },
    Nothing,
}

pub enum FoundView {
    Subject { actives: Seq<MemoryView>, stored: Option<Seq<u32>> },
    Nearest { hit: Option<HitView> },
    Nothing,
}

impl View for Found {
    type V = FoundView;

    open spec fn view(&self) -> FoundView {
        match *self {
            Found::Subject { actives, stored } => FoundView::Subject {
                actives: memory_views(actives@),
                stored: vector_view(stored),
            },
            Found::Nearest { hit } => FoundView::Nearest {
                hit: match hit {
                    Some(h) => Some(h@),
                    None => None,
                },
            },
            Found::Nothing => FoundView::Nothing,
        }
    }
}

/// What a write comes to: the memory that stands for it, the outcome, and the rows to write.
pub struct PlanView {
    pub memory: MemoryView,
    pub outcome: MemoryOutcome,
    pub rows: Seq<RowView>,
}

pub open spec fn importance_of(config: PlanConfig, input: InputView) -> Score {
    match input.importance {
        Some(s) => s,
        None => config.default_importance,
    }
}

/// A new memory with what the input says of it.
pub open spec fn dressed(fresh: MemoryView, input: InputView, importance: Score) -> MemoryView {
    MemoryView {
        subject: input.subject,
        importance,
        source_event_ids: input.source_event_ids,
        metadata: input.metadata,
        mem_type: match input.mem_type {
            Some(t) => t,
            None => fresh.mem_type,
        },
        ..fresh
    }
}

/// The same content, white space at its ends aside.
pub open spec fn same_content(a: Seq<char>, b: Seq<char>) -> bool {
    trimmed(a) == trimmed(b)
}

/// A memory that a newer version closes.
pub open spec fn closed_at(m: MemoryView, valid_to: i128, now: i128) -> MemoryView {
    MemoryView {
        state: MemoryState::Superseded,
        valid_to: Some(valid_to),
        updated_at: now,
        ..m
    }
}

pub open spec fn closed_rows(actives: Seq<MemoryView>, valid_to: i128, now: i128) -> Seq<RowView> {
    actives.map_values(
        |m: MemoryView| RowView { memory: closed_at(m, valid_to, now), embedding: None },
    )
}

/// The latest start of validity.
pub open spec fn latest_start(actives: Seq<MemoryView>) -> i128
    recommends
        actives.len() > 0,
    decreases actives.len(),
{
    if actives.len() <= 1 {
        actives[0].valid_from
    } else {
        let before = latest_start(actives.drop_last());
        if actives.last().valid_from > before {
            actives.last().valid_from
        } else {
            before
        }
    }
}

/// The same fact once more: it gains weight and a version.
pub open spec fn confirmed(
    existing: MemoryView,
    importance: Score,
    embedding: Option<Seq<u32>>,
    stored: Option<Seq<u32>>,
    now: i128,
) -> PlanView {
    let memory = MemoryView {
        importance: larger(importance, existing.importance),
        version: (existing.version + 1) as u64,
        updated_at: now,
        ..existing
    };
    PlanView {
        memory,
        outcome: MemoryOutcome::Confirmed,
        rows: seq![
            RowView {
                memory,
                embedding: match embedding {
                    Some(e) => Some(e),
                    None => stored,
                },
            },
        ],
    }
}

/// A contradiction that is left for a person: the new memory stands beside what is there.
pub open spec fn conflicting(
    input: InputView,
    importance: Score,
    embedding: Option<Seq<u32>>,
    fresh: MemoryView,
) -> PlanView {
    let memory = MemoryView {
        project: input.project,
        valid_from: match input.valid_from {
            Some(t) => t,
            None => fresh.valid_from,
        },
        ..dressed(fresh, input, importance)
    };
    PlanView { memory, outcome: MemoryOutcome::Conflict, rows: seq![RowView { memory, embedding }] }
}

/// A contradiction: every active memory of the subject is closed, and the new one takes over.
pub open spec fn superseding(
    input: InputView,
    importance: Score,
    embedding: Option<Seq<u32>>,
    actives: Seq<MemoryView>,
    fresh: MemoryView,
    now: i128,
) -> PlanView {
    let at = boundary(input.valid_from, Some(latest_start(actives)), now) as i128;
    let memory = MemoryView {
        project: input.project,
        supersedes: Some(actives[0].id),
        valid_from: at,
        ..dressed(fresh, input, importance)
    };
    PlanView {
        memory,
        outcome: MemoryOutcome::Superseded,
        rows: closed_rows(actives, at, now).push(RowView { memory, embedding }),
    }
}

/// The ids of `a`, followed by those of `b` that are not there yet.
pub open spec fn joined_ids(a: Seq<u128>, b: Seq<u128>) -> Seq<u128>
    decreases b.len(),
{
    if b.len() == 0 {
        a
    } else {
        let before = joined_ids(a, b.drop_last());
        if before.contains(b.last()) {
            before
        } else {
            before.push(b.last())
        }
    }
}

/// A near duplicate: the old memory is closed, and the new one carries on what supported it.
pub open spec fn merging(
    input: InputView,
    importance: Score,
    embedding: Option<Seq<u32>>,
    top: MemoryView,
    fresh: MemoryView,
    now: i128,
) -> PlanView {
    let at = boundary(input.valid_from, Some(top.valid_from), now) as i128;
    let memory = MemoryView {
        subject: top.subject,
        project: match input.project {
            Some(p) => Some(p),
            None => top.project,
        },
        supersedes: Some(top.id),
        valid_from: at,
        source_event_ids: joined_ids(top.source_event_ids, input.source_event_ids),
        ..dressed(fresh, input, larger(importance, top.importance))
    };
    PlanView {
        memory,
        outcome: MemoryOutcome::Merged,
        rows: seq![
            RowView { memory: closed_at(top, at, now), embedding: None },
            RowView { memory, embedding },
        ],
    }
}

/// A new fact.
pub open spec fn inserting(
    input: InputView,
    importance: Score,
    embedding: Option<Seq<u32>>,
    fresh: MemoryView,
) -> PlanView {
    let memory = MemoryView {
        project: input.project,
        valid_from: match input.valid_from {
            Some(t) => t,
            None => fresh.valid_from,
        },
        ..dressed(fresh, input, importance)
    };
    PlanView { memory, outcome: MemoryOutcome::Inserted, rows: seq![RowView { memory, embedding }] }
}

/// What a write comes to, given what was found. `fresh` is an empty memory of the input's scope and
/// content, as it is created at `now`.
pub open spec fn planned(
    config: PlanConfig,
    input: InputView,
    embedding: Option<Seq<u32>>,
    found: FoundView,
    fresh: MemoryView,
    now: i128,
) -> PlanView {
    let importance = importance_of(config, input);
    match found {
        FoundView::Subject { actives, stored } => if actives.len() == 0 {
            inserting(input, importance, embedding, fresh)
        } else if same_content(actives[0].content, input.content) {
            confirmed(actives[0], importance, embedding, stored, now)
        } else if config.contradiction_review {
            conflicting(input, importance, embedding, fresh)
        } else {
            superseding(input, importance, embedding, actives, fresh, now)
        },
        FoundView::Nearest { hit: Some(top) } => if at_least(top.score, config.dedup_threshold) {
            merging(input, importance, embedding, top.memory, fresh, now)
        } else {
            inserting(input, importance, embedding, fresh)
        },
        _ => inserting(input, importance, embedding, fresh),
    }
}

/// Machine limits: versions and instants that leave room for the next one.
pub open spec fn within_limits(found: FoundView) -> bool {
    match found {
        FoundView::Subject { actives, .. } => forall|i: int|
            0 <= i < actives.len() ==> (#[trigger] actives[i]).version < u64::MAX
                && actives[i].valid_from <= i128::MAX - 1000,
        FoundView::Nearest { hit: Some(top) } => top.memory.valid_from <= i128::MAX - 1000,
        _ => true,
    }
}

/// A planned write.
pub struct Plan {
    pub add: MemoryAdd,
    pub rows: Vec<MemoryRow>,
}

impl View for Plan {
    type V = PlanView;

    open spec fn view(&self) -> PlanView {
        PlanView {
            memory: self.add.memory@,
            outcome: self.add.outcome,
            rows: row_views(self.rows@),
        }
    }
}

fn dress(fresh: Memory, input: &MemoryInput, importance: Score) -> (r: Memory)
    ensures
        r@ == dressed(fresh@, input@, importance),
{
    let mem_type = match &input.mem_type {
        Some(t) => t.clone(),
        None => fresh.mem_type,
    };
    Memory {
        subject: copy_opt(&input.subject),
        importance,
        source_event_ids: copy_ids(&input.source_event_ids),
        metadata: input.metadata.copy(),
        mem_type,
        ..fresh
    }
}

/// A new memory with its project, and valid since when the input says.
fn place(fresh: Memory, input: &MemoryInput, importance: Score) -> (r: Memory)
    ensures
        r@ == (MemoryView {
            project: input@.project,
            valid_from: match input@.valid_from {
                Some(t) => t,
                None => fresh@.valid_from,
            },
            ..dressed(fresh@, input@, importance)
        }),
{
    let valid_from: i128 = match input.valid_from {
        Some(t) => t,
        None => fresh.valid_from,
    };
    let mut memory = dress(fresh, input, importance);
    memory.project = copy_opt(&input.project);
    memory.valid_from = valid_from;
    memory
}

/// A plan of one row.
fn single(memory: Memory, outcome: MemoryOutcome, embedding: Option<Vec<u32>>) -> (r: Plan)
    ensures
        r@ == (PlanView {
            memory: memory@,
            outcome,
            rows: seq![RowView { memory: memory@, embedding: vector_view(embedding) }],
        }),
{
    let mut rows: Vec<MemoryRow> = Vec::new();
    rows.push(MemoryRow { memory: memory.copy(), embedding });
    proof {
        assert(row_views(rows@) =~= seq![
            RowView { memory: memory@, embedding: vector_view(embedding) },
        ]);
    }
    Plan { add: MemoryAdd { memory, outcome }, rows }
}

fn close(m: &Memory, valid_to: i128, now: i128) -> (r: MemoryRow)
    ensures
        r@ == (RowView { memory: closed_at(m@, valid_to, now), embedding: None }),
{
    let mut old = m.copy();
    old.state = MemoryState::Superseded;
    old.valid_to = Some(valid_to);
    old.updated_at = now;
    MemoryRow { memory: old, embedding: None }
}

fn find_latest(actives: &Vec<Memory>) -> (r: i128)
    requires
        actives@.len() > 0,
    ensures
        r == latest_start(memory_views(actives@)),
{
    let ghost all = memory_views(actives@);
    let mut latest: i128 = actives[0].valid_from;
    let mut i: usize = 1;
    proof {
        assert(all.take(1)[0] == all[0]);
    }
    while i < actives.len()
        invariant
            1 <= i <= actives.len(),
            all == memory_views(actives@),
            latest == latest_start(all.take(i as int)),
        decreases actives.len() - i,
    {
        proof {
            assert(all.take(i + 1).drop_last() =~= all.take(i as int));
            assert(all.take(i + 1).last() == all[i as int]);
        }
        if actives[i].valid_from > latest {
            latest = actives[i].valid_from;
        }
        i += 1;
    }
    proof {
        assert(all.take(all.len() as int) =~= all);
    }
    latest
}

fn supersede(
    input: &MemoryInput,
    importance: Score,
    embedding: Option<Vec<u32>>,
    actives: &Vec<Memory>,
    fresh: Memory,
    now: i128,
) -> (r: Plan)
    requires
        actives@.len() > 0,
        latest_start(memory_views(actives@)) <= i128::MAX - 1000,
    ensures
        r@ == superseding(
            input@,
            importance,
            vector_view(embedding),
            memory_views(actives@),
            fresh@,
            now,
        ),
{
    let ghost all = memory_views(actives@);
    let latest: i128 = find_latest(actives);
    let at: i128 = valid_boundary(input.valid_from, Some(latest), now);
    let mut rows: Vec<MemoryRow> = Vec::new();
    let mut i: usize = 0;
    proof {
        assert(row_views(rows@) =~= closed_rows(all, at, now).take(0));
    }
    while i < actives.len()
        invariant
            i <= actives.len(),
            all == memory_views(actives@),
            row_views(rows@) == closed_rows(all, at, now).take(i as int),
        decreases actives.len() - i,
    {
        let ghost before = rows@;
        rows.push(close(&actives[i], at, now));
        i += 1;
        proof {
            let closed = closed_rows(all, at, now);
            assert(row_views(rows@) =~= row_views(before).push(closed[i - 1]));
            assert(closed.take(i as int) =~= closed.take(i - 1).push(closed[i - 1]));
        }
    }
    let mut memory = dress(fresh, input, importance);
    memory.project = copy_opt(&input.project);
    memory.supersedes = Some(actives[0].id);
    memory.valid_from = at;
    let ghost before = rows@;
    let ghost emb = vector_view(embedding);
    rows.push(MemoryRow { memory: memory.copy(), embedding });
    proof {
        let closed = closed_rows(all, at, now);
        assert(closed.take(closed.len() as int) =~= closed);
        assert(row_views(rows@) =~= row_views(before).push(
            RowView { memory: memory@, embedding: emb },
        ));
    }
    Plan { add: MemoryAdd { memory, outcome: MemoryOutcome::Superseded }, rows }
}

fn has_id(ids: &Vec<u128>, id: u128) -> (r: bool)
    ensures
        r == ids@.contains(id),
{
    let mut i: usize = 0;
    while i < ids.len()
        invariant
            i <= ids.len(),
            forall|k: int| 0 <= k < i ==> ids@[k] != id,
        decreases ids.len() - i,
    {
        if ids[i] == id {
            return true;
        }
        i += 1;
    }
    false
}

/// Joins two lists of ids.
pub fn join_ids(a: &Vec<u128>, b: &Vec<u128>) -> (r: Vec<u128>)
    ensures
        r@ == joined_ids(a@, b@),
{
    let mut out = copy_ids(a);
    let mut i: usize = 0;
    proof {
        assert(b@.take(0) =~= seq![]);
    }
    while i < b.len()
        invariant
            i <= b.len(),
            out@ == joined_ids(a@, b@.take(i as int)),
        decreases b.len() - i,
    {
        proof {
            assert(b@.take(i + 1).drop_last() =~= b@.take(i as int));
            assert(b@.take(i + 1).last() == b@[i as int]);
        }
        if !has_id(&out, b[i]) {
            out.push(b[i]);
        }
        i += 1;
    }
    proof {
        assert(b@.take(b@.len() as int) =~= b@);
    }
    out
}

fn merge(
    input: &MemoryInput,
    importance: Score,
    embedding: Option<Vec<u32>>,
    top: &Memory,
    fresh: Memory,
    now: i128,
) -> (r: Plan)
    requires
        top.valid_from <= i128::MAX - 1000,
    ensures
        r@ == merging(input@, importance, vector_view(embedding), top@, fresh@, now),
{
    let at: i128 = valid_boundary(input.valid_from, Some(top.valid_from), now);
    let mut memory = dress(fresh, input, importance.max(top.importance));
    memory.subject = copy_opt(&top.subject);
    memory.project = match &input.project {
        Some(p) => Some(p.clone()),
        None => copy_opt(&top.project),
    };
    memory.supersedes = Some(top.id);
    memory.valid_from = at;
    memory.source_event_ids = join_ids(&top.source_event_ids, &input.source_event_ids);
    let ghost emb = vector_view(embedding);
    let mut rows: Vec<MemoryRow> = Vec::new();
    rows.push(close(top, at, now));
    rows.push(MemoryRow { memory: memory.copy(), embedding });
    proof {
        assert(row_views(rows@) =~= seq![
            RowView { memory: closed_at(top@, at, now), embedding: None },
            RowView { memory: memory@, embedding: emb },
        ]);
    }
    Plan { add: MemoryAdd { memory, outcome: MemoryOutcome::Merged }, rows }
}

fn insert(input: &MemoryInput, importance: Score, embedding: Option<Vec<u32>>, fresh: Memory) -> (r:
    Plan)
    ensures
        r@ == inserting(input@, importance, vector_view(embedding), fresh@),
{
    single(place(fresh, input, importance), MemoryOutcome::Inserted, embedding)
}

fn is_same_content(a: &str, b: &str) -> (r: bool)
    ensures
        r == same_content(a@, b@),
{
    text::trim_str(a) == text::trim_str(b)
}

/// Plans a write without writing anything, so that whoever applies it, here or on another node,
/// comes to the same rows. A new memory has the id `id`, and the scope and the content of the input.
pub fn memory_plan_with_embedding(
    config: &PlanConfig,
    input: &MemoryInput,
    embedding: Option<Vec<u32>>,
    found: Found,
    id: u128,
    now: i128,
) -> (r: Plan)
    requires
        within_limits(found@),
    ensures
        r@ == planned(
            *config,
            input@,
            vector_view(embedding),
            found@,
            new_memory(id, input@.scope, input@.content, now),
            now,
        ),
{
    let fresh = Memory::new(id, input.scope.copy(), input.content.clone(), now);
    let importance = match input.importance {
        Some(s) => s,
        None => config.default_importance,
    };
    match found {
        Found::Subject { actives, stored } => {
            if actives.len() == 0 {
                return insert(input, importance, embedding, fresh);
            }
            proof {
                assert(memory_views(actives@)[0] == actives@[0]@);
            }
            if is_same_content(actives[0].content.as_str(), input.content.as_str()) {
                let mut m = actives[0].copy();
                m.importance = importance.max(actives[0].importance);
                m.version = m.version + 1;
                m.updated_at = now;
                let kept = match embedding {
                    Some(e) => Some(e),
                    None => stored,
                };
                return single(m, MemoryOutcome::Confirmed, kept);
            }
            if config.contradiction_review {
                let memory = place(fresh, input, importance);
                return single(memory, MemoryOutcome::Conflict, embedding);
            }
            proof {
                crate::engine::plan_laws::lemma_latest_start(memory_views(actives@));
            }
            supersede(input, importance, embedding, &actives, fresh, now)
        },
        Found::Nearest { hit } => {
            if let Some(top) = &hit {
                if top.score.is_at_least(config.dedup_threshold) {
                    return merge(input, importance, embedding, &top.memory, fresh, now);
                }
            }
            insert(input, importance, embedding, fresh)
        },
        Found::Nothing => insert(input, importance, embedding, fresh),
    }
}

/// Is the stored embedding of the subject's first memory needed? It is, where the fact is confirmed
/// and could not be embedded again.
pub fn needs_stored_embedding(input: &MemoryInput, actives: &Vec<Memory>, embedded: bool) -> (r:
    Option<u128>)
    ensures
        r == if !embedded && actives@.len() > 0 && same_content(
            memory_views(actives@)[0].content,
            input@.content,
        ) {
            Some(memory_views(actives@)[0].id)
        } else {
            None
        },
{
    if !embedded && actives.len() > 0 {
        proof {
            assert(memory_views(actives@)[0] == actives@[0]@);
        }
        if is_same_content(actives[0].content.as_str(), input.content.as_str()) {
            return Some(actives[0].id);
        }
    }
    None
}

} // verus!
