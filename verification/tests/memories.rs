//! Writing memories: planning, batches, documents and review, on a store in memory.

use ecphoria_core::engine::apply::publish_memory_change;
use ecphoria_core::engine::batch::{embedding_chunk, key_scope, take_vectors, Buffer, SubjectKey};
use ecphoria_core::engine::documents::{
    count_outcomes, document_inputs, document_prune, promote_events, sweep, DocumentIngest,
    DocumentIngestResult,
};
use ecphoria_core::engine::plan::{
    check_governance, lookup, memory_plan_with_embedding, needs_stored_embedding, receive,
    valid_boundary, Found, GovernanceRules, Lookup, PlanConfig,
};
use ecphoria_core::engine::review::{
    memory_accept, memory_contradictions, memory_feedback_plan, memory_propose,
    memory_provenance, memory_resolve_plan, memory_update_plan, pending_of, reembeds,
    retire_proposal, FeedbackAction, MemoryFeedback, MemoryPatch, Vectors,
};
use ecphoria_core::error::Error;
use ecphoria_core::ingest::chunk::ChunkOptions;
use ecphoria_core::json::{parse, Json};
use ecphoria_core::memory::cognition::{
    Memory, MemoryAdd, MemoryHit, MemoryInput, MemoryOutcome, MemoryRow, MemoryScope, MemoryState,
};
use ecphoria_core::memory::event::Event;
use ecphoria_core::memory::facts::{FactRules, FactValidation, SchemaTexts};
use ecphoria_core::score::Score;

const DAY: i128 = 86_400_000_000_000;

fn j(text: &str) -> Json {
    parse(text).expect("a JSON text")
}

fn score(x: f32) -> Score {
    Score { bits: x.to_bits() }
}

fn value(s: Score) -> f32 {
    f32::from_bits(s.bits)
}

fn normalize(s: &str) -> String {
    s.split_whitespace().collect::<Vec<_>>().join(" ").to_lowercase()
}

fn partition(s: &MemoryScope) -> String {
    format!(
        "{}|{:?}|{:?}|{:?}",
        s.tenant_id, s.user_id, s.agent_id, s.session_id
    )
}

fn facts() -> FactRules {
    let any = r#"{"type": "object"}"#.to_string();
    FactRules::compile(&SchemaTexts {
        envelope: any.clone(),
        decision: any.clone(),
        convention: any.clone(),
        incident: r#"{"type": "object", "required": ["service", "occurred_at"]}"#.to_string(),
        ticket_summary: any.clone(),
        run_lesson: any.clone(),
        flaky_test: any.clone(),
        hotspot: any.clone(),
        finding: any.clone(),
        other: any,
    })
    .expect("the schemas compile")
}

const FREE: GovernanceRules = GovernanceRules {
    require_provenance: false,
    fact_validation: FactValidation::Off,
};

fn config() -> PlanConfig {
    PlanConfig {
        default_importance: score(0.5),
        contradiction_review: false,
        dedup_threshold: score(0.92),
    }
}

/// A store of memories, written row by row.
struct Store {
    config: PlanConfig,
    rules: GovernanceRules,
    rows: Vec<MemoryRow>,
    next_id: u128,
    now: i128,
}

impl Store {
    fn new() -> Store {
        Store {
            config: config(),
            rules: FREE,
            rows: Vec::new(),
            next_id: 1,
            now: 1_000 * DAY,
        }
    }

    fn apply(&mut self, rows: Vec<MemoryRow>) -> Vec<String> {
        let mut events = Vec::new();
        for row in rows {
            events.push(publish_memory_change(&row.memory).event);
            match self.rows.iter_mut().find(|r| r.memory.id == row.memory.id) {
                Some(old) => *old = row,
                None => self.rows.push(row),
            }
        }
        events
    }

    fn get(&self, id: u128) -> Option<Memory> {
        self.rows
            .iter()
            .find(|r| r.memory.id == id)
            .map(|r| r.memory.copy())
    }

    fn active(&self, scope: &MemoryScope) -> Vec<Memory> {
        self.rows
            .iter()
            .filter(|r| r.memory.state == MemoryState::Active && r.memory.scope.equal(scope))
            .map(|r| r.memory.copy())
            .collect()
    }

    fn actives_of(&self, scope: &MemoryScope, subject: &str, project: Option<&str>) -> Vec<Memory> {
        self.active(scope)
            .into_iter()
            .filter(|m| m.subject.as_deref() == Some(subject) && m.project.as_deref() == project)
            .collect()
    }

    fn history(&self, scope: &MemoryScope, subject: &str) -> Vec<Memory> {
        let subject = normalize(subject);
        let mut all: Vec<Memory> = self
            .rows
            .iter()
            .filter(|r| {
                r.memory.scope.equal(scope) && r.memory.subject.as_deref() == Some(&subject)
            })
            .map(|r| r.memory.copy())
            .collect();
        all.sort_by_key(|m| m.valid_from);
        all
    }

    fn as_of(&self, scope: &MemoryScope, subject: &str, t: i128) -> Option<Memory> {
        self.history(scope, subject)
            .into_iter()
            .find(|m| m.valid_from <= t && m.valid_to.is_none_or(|end| t < end))
    }

    fn plan(&mut self, input: MemoryInput) -> Result<(MemoryAdd, Vec<MemoryRow>), Error> {
        let normalized = input.subject.as_deref().map(normalize);
        let ready = receive(&self.rules, &facts(), input, normalized)?;
        self.now += 1_000_000;
        let id = self.next_id;
        self.next_id += 1;
        let found = match lookup(&ready, false) {
            Lookup::Subject => {
                let subject = ready.subject.clone().unwrap();
                let actives = self.actives_of(&ready.scope, &subject, ready.project.as_deref());
                let stored = needs_stored_embedding(&ready, &actives, false)
                    .and_then(|id| self.rows.iter().find(|r| r.memory.id == id))
                    .and_then(|r| r.embedding.clone());
                Found::Subject { actives, stored }
            }
            _ => Found::Nothing,
        };
        let plan = memory_plan_with_embedding(&self.config, &ready, None, found, id, self.now);
        Ok((plan.add, plan.rows))
    }

    fn add(&mut self, input: MemoryInput) -> Result<MemoryAdd, Error> {
        let (add, rows) = self.plan(input)?;
        self.apply(rows);
        Ok(add)
    }

    fn add_batch(&mut self, inputs: Vec<MemoryInput>) -> Result<Vec<MemoryAdd>, Error> {
        let mut buffer = Buffer::new();
        let mut adds = Vec::new();
        for input in inputs {
            let key = input.subject.as_deref().map(|s| SubjectKey {
                partition: partition(&key_scope(&input)),
                subject: normalize(s),
            });
            let (next, rows) = buffer.before(&key);
            buffer = next;
            if let Some(rows) = rows {
                self.apply(rows);
            }
            let (add, rows) = self.plan(input)?;
            buffer = buffer.push(key, rows);
            adds.push(add);
        }
        self.apply(buffer.finish());
        Ok(adds)
    }

    fn ingest(
        &mut self,
        path: &str,
        content: &str,
        project: Option<&str>,
        valid_from: Option<i128>,
        scope: &MemoryScope,
    ) -> DocumentIngestResult {
        let opts = ChunkOptions {
            target_chars: 1_200,
            max_chars: 2_400,
        };
        let doc = DocumentIngest {
            path,
            content,
            metadata: j("{}"),
            valid_from,
            project: project.map(str::to_string),
        };
        let inputs = document_inputs(&doc, scope, &opts);
        let produced: Vec<String> = inputs
            .iter()
            .filter_map(|i| i.subject.as_deref())
            .map(normalize)
            .collect();
        let prefix = normalize(path);
        let previous: Vec<Memory> = self
            .active(scope)
            .into_iter()
            .filter(|m| {
                m.subject
                    .as_deref()
                    .is_some_and(|s| s == prefix || s.starts_with(&format!("{prefix}#")))
            })
            .collect();
        let added = self.add_batch(inputs).unwrap();
        self.now += 1_000_000;
        let stale = sweep(&previous, &produced, self.now);
        let result = count_outcomes(path, &added, stale.len());
        self.apply(stale);
        result
    }
}

fn about(scope: &MemoryScope, subject: &str, content: &str) -> MemoryInput {
    let mut input = MemoryInput::new(scope.copy(), content.to_string());
    input.subject = Some(subject.to_string());
    input
}

// ── Planning ─────────────────────────────────────────────────────────────────────────

#[test]
fn memory_subject_contradiction_supersedes_with_history() {
    let mut store = Store::new();
    let scope = MemoryScope::user("alice");
    let first = store
        .add(about(&scope, "favorite_color", "favorite color is blue"))
        .unwrap();
    assert_eq!(first.outcome, MemoryOutcome::Inserted);
    let second = store
        .add(about(&scope, "favorite_color", "favorite color is green"))
        .unwrap();
    assert_eq!(second.outcome, MemoryOutcome::Superseded);
    assert_eq!(second.memory.supersedes, Some(first.memory.id));
    let active = store.active(&scope);
    assert_eq!(active.len(), 1);
    assert_eq!(active[0].content, "favorite color is green");
    let hist = store.history(&scope, "favorite_color");
    assert_eq!(hist.len(), 2);
    assert_eq!(hist[0].content, "favorite color is blue");
    let before = store
        .as_of(&scope, "favorite_color", first.memory.valid_from)
        .unwrap();
    assert_eq!(before.content, "favorite color is blue");
}

#[test]
fn memory_identical_is_confirmed_not_duplicated() {
    let mut store = Store::new();
    let scope = MemoryScope::user("bob");
    store.add(about(&scope, "employer", "works at ACME")).unwrap();
    let again = store
        .add(about(&scope, "employer", " works at ACME\n"))
        .unwrap();
    assert_eq!(again.outcome, MemoryOutcome::Confirmed);
    assert_eq!(again.memory.version, 2);
    assert_eq!(again.memory.content, "works at ACME");
    assert_eq!(store.rows.len(), 1);
}

#[test]
fn subject_casing_variants_contradict_not_coexist() {
    let mut store = Store::new();
    let scope = MemoryScope::user("alice");
    let first = store.add(about(&scope, "Favorite Color", "blue")).unwrap();
    assert_eq!(first.outcome, MemoryOutcome::Inserted);
    let second = store
        .add(about(&scope, "  favorite   color ", "green"))
        .unwrap();
    assert_eq!(second.outcome, MemoryOutcome::Superseded);
    let active = store.active(&scope);
    assert_eq!(active.len(), 1);
    assert_eq!(active[0].content, "green");
    assert_eq!(active[0].subject.as_deref(), Some("favorite color"));
    assert_eq!(store.history(&scope, "FAVORITE color").len(), 2);
}

#[test]
fn the_same_subject_in_two_projects_is_two_facts() {
    let mut store = Store::new();
    let scope = MemoryScope::tenant("default");
    for (project, target) in [("payments", "ECS Fargate"), ("platform", "the EKS cluster")] {
        let mut input = about(&scope, "deploy.target", target);
        input.project = Some(project.to_string());
        store.add(input).unwrap();
    }
    assert_eq!(store.active(&scope).len(), 2);
    let mut input = about(&scope, "deploy.target", "Kubernetes");
    input.project = Some("payments".to_string());
    let moved = store.add(input).unwrap();
    assert_eq!(moved.outcome, MemoryOutcome::Superseded);
    assert_eq!(moved.memory.project.as_deref(), Some("payments"));
    let platform = store.actives_of(&scope, "deploy.target", Some("platform"));
    assert_eq!(platform[0].content, "the EKS cluster");
}

#[test]
fn superseding_at_the_same_valid_time_still_leaves_a_queryable_interval() {
    let mut store = Store::new();
    let scope = MemoryScope::tenant("default");
    let commit = 900 * DAY;
    for text in ["USearch was chosen.", "USearch was chosen, reconfirmed."] {
        let mut input = about(&scope, "adr-002.decision", text);
        input.valid_from = Some(commit);
        store.add(input).unwrap();
    }
    let history = store.history(&scope, "adr-002.decision");
    assert_eq!(history.len(), 2);
    let old = history
        .iter()
        .find(|m| m.state == MemoryState::Superseded)
        .unwrap();
    let valid_to = old.valid_to.expect("superseded row must be closed");
    assert!(valid_to > old.valid_from);
    let midpoint = old.valid_from + (valid_to - old.valid_from) / 2;
    let at_mid = store
        .as_of(&scope, "adr-002.decision", midpoint)
        .expect("a version must be valid mid-interval");
    assert_eq!(at_mid.content, "USearch was chosen.");
}

#[test]
fn boundaries_separate_versions() {
    assert_eq!(valid_boundary(Some(50), Some(10), 99), 50);
    assert_eq!(valid_boundary(None, Some(10), 99), 99);
    assert_eq!(valid_boundary(Some(10), Some(10), 99_999), 99_999);
    // The clock itself is not after the old version: a microsecond is.
    assert_eq!(valid_boundary(Some(5), Some(10), 10), 1_010);
    assert_eq!(valid_boundary(None, None, 7), 7);
}

#[test]
fn semantic_merge_preserves_history_bitemporally() {
    let scope = MemoryScope::user("alice");
    let mut old = Memory::new(1, scope.copy(), "the sky looked orange at dusk".to_string(), 10);
    old.source_event_ids = vec![7, 8];
    old.project = Some("p".to_string());
    let mut input = MemoryInput::new(
        scope.copy(),
        "the sky was a deep orange at sunset".to_string(),
    );
    input.source_event_ids = vec![8, 9];
    input.importance = Some(score(0.2));
    assert_eq!(lookup(&input, true), Lookup::Nearest);
    let hit = MemoryHit {
        memory: old.copy(),
        score: score(0.95),
        similarity: Some(score(0.95)),
        lexical: None,
    };
    let plan = memory_plan_with_embedding(
        &config(),
        &input,
        Some(vec![1, 2]),
        Found::Nearest { hit: Some(hit) },
        2,
        5_000,
    );
    assert_eq!(plan.add.outcome, MemoryOutcome::Merged);
    assert_eq!(plan.add.memory.supersedes, Some(1));
    assert_eq!(plan.add.memory.project.as_deref(), Some("p"));
    assert_eq!(plan.add.memory.source_event_ids, vec![7, 8, 9]);
    assert_eq!(value(plan.add.memory.importance), 0.5);
    assert_eq!(plan.rows.len(), 2);
    assert_eq!(plan.rows[0].memory.content, "the sky looked orange at dusk");
    assert_eq!(plan.rows[0].memory.state, MemoryState::Superseded);
    assert_eq!(plan.rows[0].memory.valid_to, Some(5_000));
    assert_eq!(plan.rows[1].memory.valid_from, 5_000);
    assert_eq!(plan.rows[1].embedding, Some(vec![1, 2]));
    // Below the threshold it is a fact of its own, and so it is for what is no number.
    for near in [0.9_f32, f32::NAN] {
        let hit = MemoryHit {
            memory: old.copy(),
            score: score(near),
            similarity: None,
            lexical: None,
        };
        let plan = memory_plan_with_embedding(
            &config(),
            &input,
            None,
            Found::Nearest { hit: Some(hit) },
            2,
            5_000,
        );
        assert_eq!(plan.add.outcome, MemoryOutcome::Inserted);
    }
}

#[test]
fn a_confirmed_memory_keeps_its_vector() {
    let scope = MemoryScope::user("alice");
    let old = Memory::new(1, scope.copy(), "works at ACME".to_string(), 10);
    let input = about(&scope, "employer", "works at ACME");
    let actives = vec![old];
    assert_eq!(needs_stored_embedding(&input, &actives, false), Some(1));
    assert_eq!(needs_stored_embedding(&input, &actives, true), None);
    let plan = memory_plan_with_embedding(
        &config(),
        &input,
        None,
        Found::Subject {
            actives,
            stored: Some(vec![3]),
        },
        2,
        20,
    );
    assert_eq!(plan.rows[0].embedding, Some(vec![3]));
    assert_eq!(plan.rows[0].memory.id, 1);
    assert_eq!(plan.rows[0].memory.updated_at, 20);
}

// ── Governance ───────────────────────────────────────────────────────────────────────

fn fact(subject: &str, metadata: &str) -> MemoryInput {
    let mut input = about(&MemoryScope::tenant("acme"), subject, "the fact's text");
    input.metadata = j(metadata);
    input
}

#[test]
fn an_ungoverned_tenant_writes_exactly_as_before() {
    let mut store = Store::new();
    store.add(fact("whatever", "{}")).expect("anything goes");
}

#[test]
fn a_write_without_provenance_is_refused_when_the_tenant_requires_it() {
    let mut store = Store::new();
    store.rules = GovernanceRules {
        require_provenance: true,
        fact_validation: FactValidation::Off,
    };
    for metadata in ["{}", r#"{"provenance": {}}"#] {
        match store.add(fact("deploy.target", metadata)) {
            Err(Error::Validation(message)) => {
                assert!(message.starts_with("this tenant requires provenance: set"))
            }
            other => panic!("{:?}", other.map(|a| a.outcome)),
        }
    }
    store
        .add(fact(
            "deploy.target",
            r#"{"provenance": {"source": "gitlab", "ref": "MR-12"}}"#,
        ))
        .expect("with a source, the same write goes through");
    let mut input = fact("deploy.target", "{}");
    input.source_event_ids = vec![4];
    store.add(input).expect("an event is a source");
}

#[test]
fn strict_validation_refuses_a_malformed_fact_and_says_what_is_wrong() {
    let mut store = Store::new();
    store.rules = GovernanceRules {
        require_provenance: false,
        fact_validation: FactValidation::Strict,
    };
    let message = match store.add(fact("the checkout outage", r#"{"kind": "incident"}"#)) {
        Err(Error::Validation(message)) => message,
        other => panic!("{:?}", other.map(|a| a.outcome)),
    };
    assert!(message.contains("service"), "{message}");
    assert!(message.contains("occurred_at"), "{message}");
    assert!(
        message.contains("incident:<service>:<yyyy-mm-dd>"),
        "{message}"
    );
    assert!(message.contains("; "), "{message}");
    store
        .add(fact(
            "incident:checkout-api:2026-09-14",
            r#"{"kind": "incident", "service": "checkout-api", "occurred_at": "2026-09-14T03:12:00Z"}"#,
        ))
        .expect("the well-formed version is accepted");
}

#[test]
fn warn_mode_accepts_what_strict_would_refuse() {
    let warn = GovernanceRules {
        require_provenance: false,
        fact_validation: FactValidation::Warn,
    };
    let warnings = check_governance(
        &warn,
        &facts(),
        Some("a free-text subject"),
        &j(r#"{"kind": "incident"}"#),
        &[],
    )
    .expect("warn never refuses");
    assert_eq!(warnings.len(), 3, "{warnings:?}");
}

#[test]
fn a_proposal_is_held_to_the_same_rules_as_a_write() {
    let strict = GovernanceRules {
        require_provenance: true,
        fact_validation: FactValidation::Strict,
    };
    let input = fact("the checkout outage", r#"{"kind": "incident"}"#);
    let refused = memory_propose(
        &strict,
        &facts(),
        input,
        Some("the checkout outage".to_string()),
        1,
        0,
    );
    assert!(matches!(refused, Err(Error::Validation(_))));
}

#[test]
fn a_proposal_subject_is_normalized_like_any_other() {
    let input = about(
        &MemoryScope::tenant("t"),
        "  Decision:API:Versioning  ",
        "the api is versioned by header",
    );
    let normalized = input.subject.as_deref().map(normalize);
    let proposal = memory_propose(&FREE, &facts(), input, normalized, 1, 0).unwrap();
    assert_eq!(proposal.subject.as_deref(), Some("decision:api:versioning"));
    assert_eq!(proposal.state, MemoryState::Pending);
    assert_eq!(value(proposal.importance), 0.5);
}

#[test]
fn an_empty_subject_and_an_empty_tenant_are_filled_in() {
    let input = about(&MemoryScope::tenant(""), "  ", "a fact");
    let ready = receive(&FREE, &facts(), input, Some(String::new())).unwrap();
    assert_eq!(ready.scope.tenant_id, "default");
    assert_eq!(ready.subject, None);
    assert_eq!(lookup(&ready, false), Lookup::Nothing);
}

// ── Batches ──────────────────────────────────────────────────────────────────────────

#[test]
fn memory_add_batch_matches_sequential_semantics() {
    let scope = MemoryScope::tenant("default");
    let inputs = || {
        vec![
            about(&scope, "deploy.target", "the deploy target is bare metal"),
            about(&scope, "oncall.rotation", "the oncall rotation is weekly"),
            about(&scope, "deploy.target", "the deploy target is kubernetes"),
            about(&scope, "oncall.rotation", "the oncall rotation is weekly"),
        ]
    };
    let contents = |store: &Store| {
        let mut all: Vec<String> = store.active(&scope).into_iter().map(|m| m.content).collect();
        all.sort();
        all
    };
    let mut one_by_one = Store::new();
    let sequential: Vec<MemoryOutcome> = inputs()
        .into_iter()
        .map(|i| one_by_one.add(i).unwrap().outcome)
        .collect();
    let mut at_once = Store::new();
    let batched: Vec<MemoryOutcome> = at_once
        .add_batch(inputs())
        .unwrap()
        .into_iter()
        .map(|a| a.outcome)
        .collect();
    assert_eq!(sequential, batched);
    assert_eq!(contents(&one_by_one), contents(&at_once));
    assert_eq!(batched[2], MemoryOutcome::Superseded);
    assert_eq!(batched[3], MemoryOutcome::Confirmed);
    assert_eq!(contents(&at_once).len(), 2, "one active memory per subject");
}

#[test]
fn batches_are_embedded_in_chunks() {
    assert_eq!(embedding_chunk(0, 5, 2), Some((0, 2)));
    assert_eq!(embedding_chunk(4, 5, 2), Some((4, 5)));
    assert_eq!(embedding_chunk(5, 5, 2), None);
    assert_eq!(embedding_chunk(0, 3, 0), Some((0, 1)));
    assert_eq!(
        take_vectors(Some(vec![vec![1], vec![2]]), 2),
        vec![Some(vec![1]), Some(vec![2])]
    );
    // Too few vectors are none: nobody knows which text they belong to.
    assert_eq!(take_vectors(Some(vec![vec![1]]), 2), vec![None, None]);
    assert_eq!(take_vectors(None, 2), vec![None, None]);
}

// ── Documents ────────────────────────────────────────────────────────────────────────

const RUNBOOK: &str = "# Runbook\n\nOverview of the recovery procedure for the primary cluster.\n\n## Failover\n\nPromote the standby by hand, then update DNS.\n\n## Rollback\n\nRestore the most recent snapshot and replay the log.\n";

#[test]
fn reimporting_an_edited_document_supersedes_only_the_changed_section() {
    let mut store = Store::new();
    let scope = MemoryScope::tenant("default");
    let path = "docs/runbook.md";
    let first = store.ingest(path, RUNBOOK, None, None, &scope);
    assert_eq!(first.chunks, 3);
    assert_eq!(first.inserted, 3);
    let same = store.ingest(path, RUNBOOK, None, None, &scope);
    assert_eq!(
        (same.confirmed, same.superseded, same.inserted, same.removed),
        (3, 0, 0, 0),
        "an unchanged re-import must be a no-op: {same:?}"
    );
    let v2 = RUNBOOK.replace(
        "Promote the standby by hand, then update DNS.",
        "Failover is automatic; the dispatcher promotes the standby.",
    );
    let edited = store.ingest(path, &v2, None, None, &scope);
    assert_eq!(
        (edited.superseded, edited.confirmed, edited.removed),
        (1, 2, 0),
        "exactly one section should have moved: {edited:?}"
    );
    let history = store.history(&scope, "docs/runbook.md#Runbook > Failover");
    assert_eq!(history.len(), 2);
    assert!(history[0].content.contains("by hand"));
    assert_eq!(history[0].state, MemoryState::Superseded);
}

#[test]
fn removing_a_section_expires_it_without_losing_history() {
    let mut store = Store::new();
    let scope = MemoryScope::tenant("default");
    let path = "docs/runbook.md";
    store.ingest(path, RUNBOOK, None, None, &scope);
    let v2 = "# Runbook\n\nOverview of the recovery procedure for the primary cluster.\n\n## Rollback\n\nRestore the most recent snapshot and replay the log.\n";
    let after = store.ingest(path, v2, None, None, &scope);
    assert_eq!(after.removed, 1, "deleted section not swept: {after:?}");
    let history = store.history(&scope, "docs/runbook.md#Runbook > Failover");
    assert_eq!(history.len(), 1);
    assert_eq!(history[0].state, MemoryState::Expired);
    assert!(history[0].content.contains("by hand"));
}

#[test]
fn document_sweep_never_reaches_a_different_document() {
    let mut store = Store::new();
    let scope = MemoryScope::tenant("default");
    let v1 = "# Overview\n\nShared intro text.\n\n## Setup\n\nRun the installer.\n";
    for path in ["alpha/README.md", "beta/README.md"] {
        store.ingest(path, v1, None, None, &scope);
    }
    assert_eq!(store.active(&scope).len(), 4);
    let r = store.ingest(
        "alpha/README.md",
        "# Overview\n\nShared intro text.\n",
        None,
        None,
        &scope,
    );
    assert_eq!(r.removed, 1);
    assert_eq!(r.confirmed, 1);
    let subjects: Vec<String> = store
        .active(&scope)
        .into_iter()
        .filter_map(|m| m.subject)
        .collect();
    assert!(subjects.iter().any(|s| s == "beta/readme.md#overview"));
    assert!(subjects.iter().any(|s| s == "beta/readme.md#overview > setup"));
    assert_eq!(subjects.len(), 3, "exactly one section removed: {subjects:?}");
}

#[test]
fn backdated_import_reconstructs_the_valid_time_timeline() {
    let mut store = Store::new();
    let scope = MemoryScope::tenant("default");
    for (date, text) in [
        (100 * DAY, "Promote the standby by hand."),
        (200 * DAY, "Promote the standby via the console."),
        (300 * DAY, "Failover is automatic."),
    ] {
        let doc = format!("# Runbook\n\n## Failover\n\n{text}\n");
        store.ingest("docs/runbook.md", &doc, None, Some(date), &scope);
    }
    let subject = "docs/runbook.md#Runbook > Failover";
    for (when, expected) in [
        (150 * DAY, Some("by hand")),
        (250 * DAY, Some("console")),
        (350 * DAY, Some("automatic")),
        (50 * DAY, None),
    ] {
        let got = store.as_of(&scope, subject, when).map(|m| m.content);
        match expected {
            Some(text) => assert!(got.as_deref().is_some_and(|c| c.contains(text)), "{got:?}"),
            None => assert!(got.is_none(), "{got:?}"),
        }
    }
    let history = store.history(&scope, subject);
    assert_eq!(history.len(), 3);
    for m in &history {
        assert!(m.created_at >= 1_000 * DAY, "recorded now");
        assert!(m.valid_from < 301 * DAY);
    }
}

#[test]
fn pruning_expires_documents_that_left_the_source() {
    let mut store = Store::new();
    let scope = MemoryScope::tenant("default");
    for path in ["docs/kept.md", "docs/removed.md", "vendor/theirs.md"] {
        store.ingest(
            path,
            "# Title\n\n## Section\n\nSome body text worth indexing.\n",
            Some("platform"),
            None,
            &scope,
        );
    }
    let chunks = |store: &Store| -> Vec<Memory> {
        store
            .active(&scope)
            .into_iter()
            .filter(|m| m.mem_type == "chunk" && m.project.as_deref() == Some("platform"))
            .collect()
    };
    let keep = vec!["docs/kept.md".to_string()];
    let expired = document_prune(&chunks(&store), &keep, store.now);
    assert_eq!(expired.len(), 2);
    store.apply(expired);
    let subjects: Vec<String> = chunks(&store).into_iter().filter_map(|m| m.subject).collect();
    assert_eq!(subjects, vec!["docs/kept.md#title > section".to_string()]);
    assert!(document_prune(&chunks(&store), &keep, store.now).is_empty());
}

#[test]
fn a_kept_document_may_have_a_hash_in_its_path() {
    let mut store = Store::new();
    let scope = MemoryScope::tenant("default");
    store.ingest("docs/C#.md", "# Intro\n\nbody\n", None, None, &scope);
    store.ingest("docs/c", "# Intro\n\nbody\n", None, None, &scope);
    let keep = vec!["docs/c#.md".to_string()];
    let expired = document_prune(&store.active(&scope), &keep, store.now);
    let subjects: Vec<&str> = expired
        .iter()
        .filter_map(|r| r.memory.subject.as_deref())
        .collect();
    assert_eq!(subjects, vec!["docs/c#intro"]);
    assert_eq!(expired[0].memory.state, MemoryState::Expired);
}

#[test]
fn a_section_without_a_recorded_path_is_told_by_its_subject() {
    let memory = |subject: &str| -> Memory {
        let mut m = Memory::new(1, MemoryScope::tenant("t"), "x".to_string(), 0);
        m.subject = Some(subject.to_string());
        m
    };
    let keep = vec!["docs/c#.md".to_string(), "docs/a.md".to_string()];
    for subject in ["docs/c#.md#intro", "docs/a.md", "docs/a.md~1", "docs/a.md#§1~1"] {
        assert!(document_prune(&vec![memory(subject)], &keep, 5).is_empty(), "{subject}");
    }
    for subject in [
        "docs/c",
        "docs/c#.m",
        "docs/a.mdx",
        "docs/b.md#docs/a.md",
        "docs/a.md~old#x",
        "docs/a.md~1#x",
        "docs/a.md~01",
        "docs/a.md~",
    ] {
        assert_eq!(document_prune(&vec![memory(subject)], &keep, 5).len(), 1, "{subject}");
    }
    let mut nameless = memory("x");
    nameless.subject = None;
    assert!(document_prune(&vec![nameless], &keep, 5).is_empty());
}

#[test]
fn a_contradiction_for_review_keeps_its_project_and_its_time() {
    let mut store = Store::new();
    store.config.contradiction_review = true;
    let scope = MemoryScope::tenant("t");
    let input = |content: &str, project: &str, at: i128| {
        let mut i = about(&scope, "db", content);
        i.project = Some(project.to_string());
        i.valid_from = Some(at);
        i
    };
    store.add(input("postgres", "p", 5)).unwrap();
    let second = store.add(input("mysql", "p", 7)).unwrap();
    assert_eq!(second.outcome, MemoryOutcome::Conflict);
    assert_eq!(second.memory.project.as_deref(), Some("p"));
    assert_eq!(second.memory.valid_from, 7);
    // One subject in two projects is two facts, and no contradiction.
    store.add(input("sqlite", "q", 8)).unwrap();
    store.add(about(&scope, "db", "duckdb")).unwrap();
    let groups = memory_contradictions(&store.active(&scope));
    assert_eq!(groups.len(), 1);
    assert_eq!(groups[0].subject, "db");
    assert_eq!(groups[0].project.as_deref(), Some("p"));
    assert_eq!(groups[0].memories.len(), 2);
    // Groups of one subject come by project, and first the one without.
    store.add(input("oracle", "a", 8)).unwrap();
    store.add(input("db2", "a", 9)).unwrap();
    store.add(about(&scope, "db", "redis")).unwrap();
    let groups = memory_contradictions(&store.active(&scope));
    let projects: Vec<Option<&str>> = groups.iter().map(|g| g.project.as_deref()).collect();
    assert_eq!(projects, vec![None, Some("a"), Some("p")]);
}

#[test]
fn importing_a_document_again_confirms_every_section() {
    let mut store = Store::new();
    let scope = MemoryScope::tenant("default");
    let md = "intro\n\n# A\n\nx\n\n# A\n\ny\n\n# a\n\nz\n\n# A~1\n\nw\n";
    let first = store.ingest("docs/x.md", md, None, None, &scope);
    assert_eq!((first.chunks, first.inserted), (5, 5));
    let ids = |store: &Store| -> Vec<u128> {
        store.active(&scope).iter().map(|m| m.id).collect()
    };
    let before = ids(&store);
    let again = store.ingest("docs/x.md", md, None, None, &scope);
    assert_eq!(again.chunks, 5);
    assert_eq!(again.confirmed, 5);
    assert_eq!((again.inserted, again.superseded, again.removed), (0, 0, 0));
    assert_eq!(ids(&store), before);
}

#[test]
fn a_capped_batch_is_written_memory_by_memory() {
    let scope = MemoryScope::tenant("t");
    let mut store = Store::new();
    let (_, rows) = store.plan(about(&scope, "a", "one")).unwrap();
    let buffer = Buffer::new().push(None, rows);
    let (buffer, written) = buffer.after(false);
    assert!(written.is_none());
    let (buffer, written) = buffer.after(true);
    assert_eq!(written.unwrap().len(), 1);
    assert!(buffer.finish().is_empty());
}

#[test]
fn the_engine_own_housekeeping_is_attributable() {
    let mut store = Store::new();
    store.rules = GovernanceRules {
        require_provenance: true,
        fact_validation: FactValidation::Off,
    };
    let scope = MemoryScope::tenant("acme");
    let result = store.ingest(
        "docs/runbook.md",
        "# Runbook\n\nRestart the worker.\n",
        None,
        None,
        &scope,
    );
    assert!(result.inserted > 0, "{result:?}");
    let m = &store.active(&scope)[0];
    assert_eq!(m.mem_type, "chunk");
    assert_eq!(
        m.metadata.get("doc_path").unwrap().as_str(),
        Some("docs/runbook.md")
    );
    let origin = m.metadata.get("provenance").unwrap();
    assert_eq!(origin.get("source").unwrap().as_str(), Some("document"));
    assert_eq!(origin.get("ref").unwrap().as_str(), Some("docs/runbook.md"));
    assert_eq!(
        m.metadata.get("heading_path").unwrap().to_text(),
        "[\"Runbook\"]"
    );
    assert_eq!(m.metadata.get("ordinal").unwrap().as_u64(), Some(0));
}

#[test]
fn an_importer_can_say_where_a_document_comes_from() {
    let doc = DocumentIngest {
        path: "a.md",
        content: "# T\n\nbody\n",
        metadata: j(r#"{"provenance": {"source": "wiki"}, "doc_path": "old"}"#),
        valid_from: Some(5),
        project: None,
    };
    let opts = ChunkOptions {
        target_chars: 100,
        max_chars: 200,
    };
    let inputs = document_inputs(&doc, &MemoryScope::tenant("t"), &opts);
    assert_eq!(inputs.len(), 1);
    assert_eq!(
        inputs[0]
            .metadata
            .get("provenance")
            .unwrap()
            .get("source")
            .unwrap()
            .as_str(),
        Some("wiki")
    );
    assert_eq!(inputs[0].metadata.get("doc_path").unwrap().as_str(), Some("a.md"));
    assert_eq!(inputs[0].valid_from, Some(5));
}

#[test]
fn promoted_events_become_memories() {
    let event = |event_type: &str| Event {
        id: 9,
        source: "github/acme/api".to_string(),
        event_type: event_type.to_string(),
        payload: j(
            r#"{"repository": "acme/api", "sender": "bob",
                "raw": {"issue": {"number": 7, "title": "Crash on start", "body": "It was a race."}}}"#,
        ),
        timestamp: 77,
        parent_id: None,
        trace_id: None,
        tags: vec![],
        idempotency_key: None,
    };
    let events = vec![event("issue.closed"), event("push")];
    let rules = vec!["github:issue.closed".to_string()];
    let inputs = promote_events(true, "acme", &events, &rules);
    assert_eq!(inputs.len(), 1);
    assert_eq!(inputs[0].subject.as_deref(), Some("acme/api#issue-7"));
    assert_eq!(inputs[0].source_event_ids, vec![9]);
    assert_eq!(inputs[0].valid_from, Some(77));
    assert_eq!(inputs[0].mem_type.as_deref(), Some("episodic"));
    assert_eq!(
        inputs[0].metadata.get("promoted").unwrap().as_bool(),
        Some(true)
    );
    assert!(promote_events(false, "acme", &events, &rules).is_empty());
}

// ── Review ───────────────────────────────────────────────────────────────────────────

#[test]
fn contradiction_review_queues_then_resolves() {
    let mut store = Store::new();
    store.config.contradiction_review = true;
    let scope = MemoryScope::user("alice");
    let first = store.add(about(&scope, "plan", "on the pro plan")).unwrap();
    let second = store
        .add(about(&scope, "plan", "upgraded to enterprise"))
        .unwrap();
    assert_eq!(second.outcome, MemoryOutcome::Conflict);
    assert_eq!(store.active(&scope).len(), 2);
    let queue = memory_contradictions(&store.active(&scope));
    assert_eq!(queue.len(), 1);
    assert_eq!(queue[0].subject, "plan");
    assert_eq!(queue[0].memories.len(), 2);
    let rows = memory_resolve_plan(
        &store.actives_of(&scope, "plan", None),
        "plan",
        second.memory.id,
        store.now,
    )
    .unwrap();
    assert_eq!(rows.len(), 1);
    store.apply(rows);
    let active = store.active(&scope);
    assert_eq!(active.len(), 1);
    assert_eq!(active[0].content, "upgraded to enterprise");
    assert!(memory_contradictions(&store.active(&scope)).is_empty());
    match memory_resolve_plan(
        &store.actives_of(&scope, "plan", None),
        "plan",
        first.memory.id,
        store.now,
    ) {
        Err(Error::State(message)) => assert_eq!(
            message,
            "keep_id 00000000-0000-0000-0000-000000000001 is not an active memory for subject 'plan' in this scope"
        ),
        _ => panic!("a closed memory was kept"),
    }
}

#[test]
fn contradictions_come_in_the_order_of_their_subjects() {
    let scope = MemoryScope::user("alice");
    let m = |id: u128, subject: Option<&str>| {
        let mut m = Memory::new(id, scope.copy(), format!("text {id}"), 0);
        m.subject = subject.map(str::to_string);
        m
    };
    let actives = vec![
        m(1, Some("zeta")),
        m(2, Some("alpha")),
        m(3, None),
        m(4, Some("zeta")),
        m(5, Some("lone")),
        m(6, Some("alpha")),
        m(7, None),
    ];
    let groups = memory_contradictions(&actives);
    let seen: Vec<(String, Vec<u128>)> = groups
        .iter()
        .map(|g| (g.subject.clone(), g.memories.iter().map(|m| m.id).collect()))
        .collect();
    assert_eq!(
        seen,
        vec![
            ("alpha".to_string(), vec![2, 6]),
            ("zeta".to_string(), vec![1, 4])
        ]
    );
}

#[test]
fn memory_feedback_reinforces_and_retires() {
    let mut store = Store::new();
    let scope = MemoryScope::user("alice");
    let added = store
        .add(MemoryInput::new(scope.copy(), "likes espresso".to_string()))
        .unwrap();
    let id = added.memory.id;
    let (mem, action) = memory_feedback_plan(
        store.get(id),
        MemoryFeedback::Helpful,
        score(0.6),
        Some(vec![1]),
        store.now,
    )
    .unwrap();
    assert_eq!(value(mem.importance), 0.6);
    match action {
        FeedbackAction::Reinforce(rows) => {
            assert_eq!(rows[0].embedding, Some(vec![1]));
            store.apply(rows);
        }
        FeedbackAction::Retire(_) => panic!("what helped was retired"),
    }
    assert_eq!(store.active(&scope)[0].version, 2);
    match memory_feedback_plan(store.get(id), MemoryFeedback::Wrong, score(0.7), None, 0) {
        Some((_, FeedbackAction::Retire(ids))) => assert_eq!(ids, vec![id]),
        _ => panic!("what is wrong stayed"),
    }
    assert!(memory_feedback_plan(None, MemoryFeedback::Helpful, score(1.0), None, 0).is_none());
}

#[test]
fn verdicts_are_read_in_any_case() {
    assert_eq!(
        MemoryFeedback::from_str_loose("HELPFUL"),
        Some(MemoryFeedback::Helpful)
    );
    assert_eq!(
        MemoryFeedback::from_str_loose("Incorrect"),
        Some(MemoryFeedback::Wrong)
    );
    assert_eq!(
        MemoryFeedback::from_str_loose("stale"),
        Some(MemoryFeedback::Obsolete)
    );
    assert_eq!(MemoryFeedback::from_str_loose("meh"), None);
}

#[test]
fn memory_cdc_emits_lifecycle_events() {
    let mut store = Store::new();
    let scope = MemoryScope::user("alice");
    let (_, rows) = store.plan(about(&scope, "plan", "on the pro plan")).unwrap();
    assert_eq!(store.apply(rows), vec!["upserted"]);
    let (_, rows) = store
        .plan(about(&scope, "plan", "upgraded to enterprise"))
        .unwrap();
    assert_eq!(store.apply(rows), vec!["superseded", "upserted"]);
}

#[test]
fn a_proposal_is_accepted_once() {
    let mut store = Store::new();
    let scope = MemoryScope::tenant("t");
    store.add(about(&scope, "plan", "pro")).unwrap();
    let mut input = about(&scope, "plan", "enterprise");
    input.importance = Some(score(7.0));
    let proposal =
        memory_propose(&FREE, &facts(), input, Some("plan".to_string()), 50, 9).unwrap();
    assert_eq!(value(proposal.importance), 1.0, "held between zero and one");
    let open = pending_of(Some(proposal.copy())).expect("it is open");
    let added = store.add(memory_accept(&open)).unwrap();
    assert_eq!(added.outcome, MemoryOutcome::Superseded);
    let done = retire_proposal(&open, "accepted", Some(added.memory.id), 1_700_000_000_123_000_000)
        .unwrap();
    assert_eq!(done.state, MemoryState::Expired);
    assert_eq!(done.version, 2);
    assert_eq!(
        done.metadata.get("review_decision").unwrap().as_str(),
        Some("accepted")
    );
    assert_eq!(
        done.metadata.get("review_decided_at").unwrap().as_str(),
        Some("2023-11-14T22:13:20.123Z")
    );
    assert_eq!(
        done.metadata.get("review_accepted_as").unwrap().as_str(),
        Some("00000000-0000-0000-0000-000000000002")
    );
    assert!(pending_of(Some(done)).is_none());
    let rejected = retire_proposal(&open, "rejected", None, -1).unwrap();
    assert_eq!(
        rejected.metadata.get("review_decided_at").unwrap().as_str(),
        Some("1969-12-31T23:59:59.999999999Z")
    );
    assert!(rejected.metadata.get("review_accepted_as").is_none());
    // Beyond the calendar there is no instant to write down.
    assert!(retire_proposal(&open, "rejected", None, i128::MAX).is_none());
}

fn no_patch() -> MemoryPatch {
    MemoryPatch {
        content: None,
        importance: None,
        mem_type: None,
        metadata: None,
    }
}

#[test]
fn memory_update_patches_fields_and_is_tenant_scoped() {
    let scope = MemoryScope::user("alice");
    let m = Memory::new(1, scope, "likes tea".to_string(), 5);
    let patch = MemoryPatch {
        content: Some("likes strong black tea".into()),
        importance: Some(score(0.9)),
        mem_type: Some("episodic".into()),
        metadata: Some(j(r#"{ "source": "correction" }"#)),
    };
    let existing = Some(m.copy());
    assert!(reembeds(&existing, &patch));
    let vectors = Vectors {
        provider: true,
        fresh: Some(vec![2]),
        stored: Some(vec![1]),
    };
    let row = memory_update_plan(existing, patch, vectors, 8).unwrap();
    assert_eq!(row.memory.id, 1, "id is stable across an update");
    assert_eq!(row.memory.content, "likes strong black tea");
    assert_eq!(value(row.memory.importance), 0.9);
    assert_eq!(row.memory.mem_type, "episodic");
    assert_eq!(row.memory.version, 2);
    assert_eq!(row.memory.updated_at, 8);
    assert_eq!(row.embedding, Some(vec![2]));
    // A memory of another tenant is not found, and there is nothing to correct.
    let vectors = || Vectors {
        provider: true,
        fresh: None,
        stored: Some(vec![1]),
    };
    assert!(memory_update_plan(None, no_patch(), vectors(), 8).is_none());
    // What failed to embed, or did not change, keeps its vector.
    let mut patch = no_patch();
    patch.content = Some("something else".into());
    let row = memory_update_plan(Some(m.copy()), patch, vectors(), 8).unwrap();
    assert_eq!(row.embedding, Some(vec![1]));
    let mut patch = no_patch();
    patch.content = Some("  likes tea ".into());
    assert!(!reembeds(&Some(m.copy()), &patch));
    // History stays as it is.
    let mut closed = m;
    closed.state = MemoryState::Superseded;
    assert!(memory_update_plan(Some(closed), no_patch(), vectors(), 8).is_none());
}

#[test]
fn memory_provenance_resolves_sources_and_history() {
    let mut store = Store::new();
    let scope = MemoryScope::user("alice");
    let mut input = about(&scope, "plan", "On the Pro plan");
    input.source_event_ids = vec![4];
    let first = store.add(input).unwrap();
    store
        .add(about(&scope, "plan", "Upgraded to Enterprise"))
        .unwrap();
    let event = Event {
        id: 4,
        source: "crm".to_string(),
        event_type: "note".to_string(),
        payload: Json::Null,
        timestamp: 0,
        parent_id: None,
        trace_id: None,
        tags: vec![],
        idempotency_key: None,
    };
    let memory = store.get(first.memory.id).unwrap();
    let prov = memory_provenance(memory, Some(vec![event]), store.history(&scope, "plan"));
    assert_eq!(prov.source_events.len(), 1);
    assert_eq!(prov.source_events[0].id, 4);
    assert_eq!(prov.history.len(), 2);
    assert_eq!(prov.history[0].content, "On the Pro plan");
    // Without a subject, a memory is its own history; without a log, there are no events.
    let lone = Memory::new(9, scope, "a fact".to_string(), 0);
    let prov = memory_provenance(lone, None, vec![]);
    assert_eq!(prov.history.len(), 1);
    assert!(prov.source_events.is_empty());
}
