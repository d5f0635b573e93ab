//! Indexes, the graph, consolidation, extraction, tenants, retention and backups.

use ecphoria_core::engine::apply::{
    auto_edges, expiry_change, index_step, publish_memory_change, Edge, IndexStep,
};
use ecphoria_core::engine::attachments::{attachment_put, image_entry, is_image};
use ecphoria_core::engine::backup::{
    backup_prefix, backup_to_storage, check_bucket, check_format, confirm_upload, parts,
    prune_backups, sha256_file, sha256_path, summarize_upload, verify_manifest, BackupArtifact,
    BackupCounts, BackupManifest, TreeFile, BACKUP_FORMAT_VERSION,
};
use ecphoria_core::engine::consolidate::{
    fold_tail, list, memory_consolidate_plan, memory_consolidate_similar_plan,
    memory_reembed_plan, memory_remember, summarize_memories, Clusters,
};
use ecphoria_core::engine::extract::{
    asks_model, extract_facts, parse_extracted_facts, parse_triple_lines, triples_or,
    EXTRACT_SYSTEM,
};
use ecphoria_core::engine::graph::{graph_triples, memory_link, Walk};
use ecphoria_core::engine::retention::{
    enforce_retention, remove_retention_policy, retention_policies, set_retention_policy,
    write_policies, write_statement, Policy,
};
use ecphoria_core::engine::sessions::{embed_text, session_digest, session_distill_plan};
use ecphoria_core::engine::startup::{
    choose_completion, choose_embedding, choose_reranker, is_in_memory, page_limit,
    persists_index, rebuild_lexical_index, reloads_index, stores_in_s3, CompletionChoice,
    EmbeddingChoice, Rebuild, RerankChoice, PAGE,
};
use ecphoria_core::engine::tenants::{
    delete_tenant, delete_user, import_state, import_tenant, list_agents_for_tenant,
    scoped_agent, semantic_filter, semantic_filter_for_tenant, tag_events, with_modality,
};
use ecphoria_core::error::Error;
use ecphoria_core::json::{parse, Json};
use ecphoria_core::memory::cognition::{Memory, MemoryHit, MemoryRow, MemoryScope, MemoryState};
use ecphoria_core::memory::event::Event;
use ecphoria_core::score::Score;

fn j(text: &str) -> Json {
    parse(text).expect("a JSON text")
}

fn score(x: f32) -> Score {
    Score { bits: x.to_bits() }
}

fn strings(v: &[&str]) -> Vec<String> {
    v.iter().map(|s| s.to_string()).collect()
}

fn memory(id: u128, content: &str) -> Memory {
    Memory::new(id, MemoryScope::user("alice"), content.to_string(), 5)
}

// ── Applying rows ────────────────────────────────────────────────────────────────────

#[test]
fn only_active_rows_are_indexed() {
    let mut m = memory(1, "a fact");
    m.subject = Some("s".to_string());
    let row = MemoryRow {
        memory: m.copy(),
        embedding: Some(vec![9]),
    };
    match index_step(&row, "key".to_string()) {
        IndexStep::Put { vector, entry } => {
            assert_eq!(vector, Some(vec![9]));
            assert_eq!(entry.scope_key, "key");
            assert_eq!(entry.subject.as_deref(), Some("s"));
            assert_eq!(entry.content, "a fact");
        }
        IndexStep::Forget { .. } => panic!("an active memory was dropped"),
    }
    for state in [
        MemoryState::Pending,
        MemoryState::Superseded,
        MemoryState::Expired,
    ] {
        let mut gone = m.copy();
        gone.state = state;
        let row = MemoryRow {
            memory: gone,
            embedding: Some(vec![9]),
        };
        assert!(matches!(
            index_step(&row, "key".to_string()),
            IndexStep::Forget { id: 1 }
        ));
    }
}

#[test]
fn changes_are_named_by_the_state() {
    let mut m = memory(1, "a fact");
    assert_eq!(publish_memory_change(&m).event, "upserted");
    m.state = MemoryState::Pending;
    assert_eq!(publish_memory_change(&m).event, "proposed");
    m.state = MemoryState::Superseded;
    let c = expiry_change(Some(&m)).unwrap();
    assert_eq!(c.event, "expired");
    assert_eq!(c.user_id.as_deref(), Some("alice"));
    assert!(expiry_change(None).is_none());
}

#[test]
fn auto_graph_extracts_edges_deterministically() {
    let m = memory(0x6ba7b810_9dad_11d1_80b4_00c04fd430c8, "Alice works at Acme");
    let triples = vec![(
        "Alice".to_string(),
        "works_at".to_string(),
        "Acme".to_string(),
    )];
    let (tenant, edges) = auto_edges(&m, &triples, true);
    assert_eq!(tenant, "default");
    assert_eq!(edges.len(), 1);
    assert_eq!(edges[0].source_memory_id, Some(m.id));
    assert_eq!(edges[0].weight, score(1.0));
    assert_eq!(edges[0].valid_from, Some(5));
    let expected = uuid::Uuid::new_v5(
        &uuid::Uuid::NAMESPACE_DNS,
        "Alice|works_at|Acme".as_bytes(),
    );
    assert_eq!(edges[0].id, expected.as_u128(), "the id is that of the name");
    let (_, again) = auto_edges(&m, &triples, true);
    assert_eq!(again[0].id, edges[0].id);
    assert!(auto_edges(&m, &triples, false).1.is_empty());
}

// ── The graph ────────────────────────────────────────────────────────────────────────

fn edge(id: u128, src: &str, dst: &str) -> Edge {
    memory_link(id, src, "to", dst, None, 10)
}

fn walk(graph: &[Edge], from: &str, depth: usize, max: usize) -> Vec<u128> {
    let mut w = Walk::start(from, depth, max, 1_000);
    while let Some(entity) = w.wanted() {
        let near: Vec<Edge> = graph
            .iter()
            .filter(|e| e.src == entity || e.dst == entity)
            .take(w.limit())
            .map(|e| e.copy())
            .collect();
        w = w.take(&near);
    }
    w.finish().iter().map(|e| e.id).collect()
}

#[test]
fn memory_subgraph_traverses_multiple_hops() {
    let graph = vec![edge(1, "A", "B"), edge(2, "B", "C"), edge(3, "C", "D")];
    assert_eq!(walk(&graph, "A", 1, 100), vec![1]);
    assert_eq!(walk(&graph, "A", 2, 100), vec![1, 2]);
    assert_eq!(walk(&graph, "A", 3, 100), vec![1, 2, 3]);
    assert_eq!(walk(&graph, "A", 0, 100), vec![1], "at least one round");
    assert_eq!(walk(&graph, "A", 9, 2), vec![1, 2], "no more than wanted");
    assert_eq!(walk(&graph, "A", 9, 0), vec![1], "at least one edge");
    let ring = vec![edge(1, "A", "B"), edge(2, "B", "A")];
    assert_eq!(walk(&ring, "A", 9, 100), vec![1, 2]);
    assert!(walk(&graph, "Z", 3, 100).is_empty());
}

#[test]
fn the_graph_can_be_looked_at_as_it_was() {
    let mut old = edge(1, "A", "B");
    old.valid_to = Some(20);
    let new = memory_link(2, "A", "to", "C", Some(7), 20);
    assert_eq!(new.source_memory_id, Some(7));
    let edges = vec![old, new];
    let ends = |t: Option<i128>| -> Vec<String> {
        graph_triples(&edges, t).into_iter().map(|e| e.1).collect()
    };
    assert_eq!(ends(Some(15)), vec!["B"]);
    assert_eq!(ends(Some(20)), vec!["C"]);
    assert_eq!(ends(Some(5)), Vec::<String>::new());
    assert_eq!(ends(None), vec!["B", "C"]);
}

// ── Consolidation ────────────────────────────────────────────────────────────────────

#[test]
fn memory_consolidate_folds_lowest_importance() {
    let actives: Vec<Memory> = (0..5)
        .map(|i| memory(i, &format!("fact number {i}")))
        .collect();
    let fold = fold_tail(&actives, 2).unwrap();
    assert_eq!(fold.len(), 3);
    assert_eq!(list(&fold), "- fact number 2\n- fact number 3\n- fact number 4");
    let summary = summarize_memories(&fold, None);
    assert_eq!(
        summary,
        "Consolidated 3 memories:\n- fact number 2\n- fact number 3\n- fact number 4"
    );
    assert_eq!(
        summarize_memories(&fold, Some("  three facts \n".to_string())),
        "three facts"
    );
    assert_eq!(summarize_memories(&fold, Some("  ".to_string())), summary);
    let (input, expired) = memory_consolidate_plan(&MemoryScope::user("alice"), &fold, summary);
    assert_eq!(expired, vec![2, 3, 4]);
    assert_eq!(input.importance, Some(score(0.6)));
    assert_eq!(
        input.metadata.get("consolidated").unwrap().as_bool(),
        Some(true)
    );
    assert_eq!(
        input
            .metadata
            .get("provenance")
            .unwrap()
            .get("source")
            .unwrap()
            .as_str(),
        Some("ecphoria:consolidation")
    );
    assert!(fold_tail(&actives, 10).is_none());
    assert!(fold_tail(&actives, 5).is_none());
}

#[test]
fn semantic_consolidation_clusters_similar_memories() {
    let hit = |id: u128, s: f32| MemoryHit {
        memory: memory(id, &format!("sky {id}")),
        score: score(s),
        similarity: Some(score(s)),
        lexical: None,
    };
    let hits = vec![hit(1, 1.0), hit(2, 0.95), hit(3, 0.2)];
    let clusters = Clusters::new();
    assert!(!clusters.has(1));
    let (clusters, cluster) = clusters.form(1, &hits, score(0.9));
    let cluster = cluster.expect("two are near");
    assert_eq!(cluster.len(), 2);
    assert!(clusters.has(2) && !clusters.has(3));
    // What is in a cluster is in no other.
    let (clusters, none) = clusters.form(3, &vec![hit(3, 1.0), hit(2, 0.95)], score(0.9));
    assert!(none.is_none());
    assert!(clusters.has(3));
    let mut strong = cluster;
    strong[1].importance = score(0.8);
    strong[0].source_event_ids = vec![5, 6];
    strong[1].source_event_ids = vec![6, 7];
    let (input, expired) = memory_consolidate_similar_plan(
        &MemoryScope::user("alice"),
        &strong,
        "the sky".to_string(),
    );
    assert_eq!(expired, vec![1, 2]);
    assert_eq!(input.importance, Some(score(0.8)));
    assert_eq!(input.source_event_ids, vec![5, 6, 7]);
    assert_eq!(
        input.metadata.get("consolidation").unwrap().as_str(),
        Some("semantic")
    );
    assert_eq!(
        input.metadata.get("source_memory_ids").unwrap().to_text(),
        "[\"00000000-0000-0000-0000-000000000001\",\"00000000-0000-0000-0000-000000000002\"]"
    );
}

#[test]
fn memory_reembed_indexes_vectorless_memories() {
    let ms = vec![memory(1, "a"), memory(2, "b")];
    let rows = memory_reembed_plan(&ms, &vec![Some(vec![1]), None]);
    assert_eq!(rows.len(), 1, "what failed keeps what it has");
    assert_eq!(rows[0].memory.id, 1);
    assert_eq!(rows[0].embedding, Some(vec![1]));
}

// ── Extraction ───────────────────────────────────────────────────────────────────────

#[test]
fn parse_triple_lines_parses_pipe_format() {
    let t = parse_triple_lines("Alice | likes | coffee\nBob | works at | Acme\ngarbage line");
    assert_eq!(t.len(), 2);
    assert_eq!(t[0], ("Alice".into(), "likes".into(), "coffee".into()));
    assert_eq!(t[1], ("Bob".into(), "works_at".into(), "Acme".into()));
}

#[test]
fn triples_without_ends_are_passed_over() {
    assert!(parse_triple_lines(" | likes | coffee\nBob | |\na | b | c | d").is_empty());
    assert_eq!(
        parse_triple_lines("Bob |  | tea"),
        vec![("Bob".to_string(), String::new(), "tea".to_string())]
    );
    let own = vec![("x".to_string(), "y".to_string(), "z".to_string())];
    assert_eq!(triples_or(Some("nothing".to_string()), own), vec![(
        "x".to_string(),
        "y".to_string(),
        "z".to_string()
    )]);
    assert_eq!(triples_or(Some("A | B C | D".to_string()), vec![])[0].1, "b_c");
    assert!(triples_or(None, vec![]).is_empty());
}

#[test]
fn parse_extracted_facts_handles_fenced_json() {
    let text = "Sure!\n```json\n[{\"subject\":\"city\",\"content\":\"Lives in Paris\"},\
                    {\"content\":\"Likes jazz\"}]\n```";
    let facts = parse_extracted_facts(text).unwrap();
    assert_eq!(facts.len(), 2);
    assert_eq!(
        facts[0],
        (Some("city".to_string()), "Lives in Paris".to_string())
    );
    assert_eq!(facts[1], (None, "Likes jazz".to_string()));
}

#[test]
fn facts_that_cannot_be_read_are_none() {
    assert_eq!(parse_extracted_facts("no array"), None);
    assert_eq!(parse_extracted_facts("] ["), None);
    assert_eq!(parse_extracted_facts("[not json]"), None);
    assert_eq!(
        parse_extracted_facts("[{\"content\": \"  \"}, {\"subject\": \"x\"}, 3]"),
        Some(vec![])
    );
    assert_eq!(
        parse_extracted_facts("[{\"subject\": \"\", \"content\": \" a fact \"}]"),
        Some(vec![(None, "a fact".to_string())])
    );
}

#[test]
fn memory_remember_fallback_stores_raw_text() {
    assert!(!asks_model("none", true));
    assert!(!asks_model("llm", false));
    assert!(asks_model("llm", true));
    assert!(EXTRACT_SYSTEM.starts_with("You extract atomic, durable facts"));
    let facts = extract_facts(None, "alice prefers tea over coffee");
    assert_eq!(
        facts,
        vec![(None, "alice prefers tea over coffee".to_string())]
    );
    let facts = extract_facts(Some("I found nothing. []".to_string()), "raw");
    assert_eq!(facts, vec![(None, "raw".to_string())]);
    let inputs = memory_remember(&MemoryScope::user("alice"), facts);
    assert_eq!(inputs.len(), 1);
    assert_eq!(inputs[0].content, "raw");
}

// ── Sessions ─────────────────────────────────────────────────────────────────────────

#[test]
fn session_distill_turns_events_into_memory() {
    let events = vec![
        j(r#"{"source": "chat", "event_type": "user.msg", "payload": {"text": "I moved to Berlin"}}"#),
        j(r#"{"payload": "Noted your move."}"#),
        j("{}"),
    ];
    let digest = session_digest("sess-1", &events);
    assert_eq!(
        digest,
        "Session sess-1 summary. Events:\n- [chat] user.msg: {\"text\":\"I moved to Berlin\"}\n- [] event: \"Noted your move.\"\n- [] event: \n"
    );
    let inputs = session_distill_plan(
        &MemoryScope::tenant("default"),
        "sess-1",
        &extract_facts(None, &digest),
    );
    assert_eq!(inputs.len(), 1);
    assert_eq!(inputs[0].scope.session_id.as_deref(), Some("sess-1"));
    assert!(inputs[0].content.contains("user.msg"));
    assert_eq!(inputs[0].mem_type.as_deref(), Some("episodic"));
}

#[test]
fn digests_are_bounded() {
    let long = format!("\"{}\"", "ä".repeat(400));
    let events: Vec<Json> = (0..300)
        .map(|_| j(&format!("{{\"payload\": {long}}}")))
        .collect();
    let digest = session_digest("s", &events);
    assert_eq!(digest.lines().count(), 201);
    let line = digest.lines().nth(1).unwrap();
    assert_eq!(line.chars().count(), "- [] event: ".len() + 300);
}

#[test]
fn single_texts_are_embedded() {
    assert_eq!(embed_text(Some(vec![vec![1], vec![2]])), Ok(vec![1]));
    assert_eq!(
        embed_text(Some(vec![])),
        Err(Error::Embedding(
            "embedding returned empty result".to_string()
        ))
    );
    assert_eq!(
        embed_text(None),
        Err(Error::Embedding(
            "no embedding provider configured".to_string()
        ))
    );
}

// ── Tenants ──────────────────────────────────────────────────────────────────────────

fn event(payload: &str) -> Event {
    Event {
        id: 1,
        source: "s".to_string(),
        event_type: "t".to_string(),
        payload: j(payload),
        timestamp: 0,
        parent_id: None,
        trace_id: None,
        tags: vec![],
        idempotency_key: None,
    }
}

#[test]
fn concurrent_tenant_ingest_does_not_cross_tag() {
    let events = vec![event(r#"{"_tenant_id": "evil", "x": 1}"#), event("[1]")];
    let tagged = tag_events(&events, Some("acme"));
    assert_eq!(
        tagged[0].payload.get("_tenant_id").unwrap().as_str(),
        Some("acme")
    );
    assert_eq!(tagged[0].payload.get("x").unwrap().as_u64(), Some(1));
    assert_eq!(tagged[1].payload.to_text(), "[1]");
    let same = tag_events(&events, None);
    assert_eq!(
        same[0].payload.get("_tenant_id").unwrap().as_str(),
        Some("evil")
    );
}

#[test]
fn semantic_search_for_tenant_isolates() {
    let acme = j(r#"{"tenant_id": "acme", "source": "gh", "event_type": "push"}"#);
    let none = j("{}");
    assert!(semantic_filter_for_tenant(&acme, "acme", Some("gh"), None));
    assert!(!semantic_filter_for_tenant(&acme, "globex", None, None));
    assert!(!semantic_filter_for_tenant(&acme, "acme", Some("jira"), None));
    assert!(semantic_filter_for_tenant(&none, "default", None, None));
    assert!(!semantic_filter_for_tenant(&none, "acme", None, None));
    assert!(semantic_filter(&acme, Some("gh"), Some("push")));
    assert!(!semantic_filter(&none, Some("gh"), None));
    assert!(semantic_filter(&none, None, None));
    assert_eq!(
        with_modality(j("3"), "image").to_text(),
        "{\"modality\":\"image\"}"
    );
}

#[test]
fn agents_are_named_apart() {
    let name = scoped_agent("acme", "bot");
    assert_eq!(name, "acme\u{1f}bot");
    let all = vec![
        name,
        scoped_agent("acme-2", "bot"),
        scoped_agent("ac_e", "spy"),
        "plain".to_string(),
        scoped_agent("acme", "cat"),
    ];
    assert_eq!(list_agents_for_tenant(&all, "acme"), vec!["bot", "cat"]);
    assert_eq!(list_agents_for_tenant(&all, "ac_e"), vec!["spy"]);
}

#[test]
fn erasures_and_moves_are_summed_up() {
    assert_eq!(
        delete_tenant("acme", 1, 2, 3, 4).to_text(),
        "{\"tenant\":\"acme\",\"events_deleted\":1,\"memories_deleted\":2,\"state_deleted\":3,\"vectors_deleted\":4}"
    );
    let user = delete_user("acme", "alice", 2);
    assert_eq!(user.get("memories_deleted").unwrap().as_u64(), Some(2));
    assert!(user
        .get("note")
        .unwrap()
        .as_str()
        .unwrap()
        .contains("(no user_id column); erase user data"));
    let snapshot = j(
        r#"{"state": [["acme\u001fbot", "k", {"v": 1}], ["short"], [1, "k", 2], "x", ["a", "b", null, "more"]]}"#,
    );
    let state = import_state(&snapshot);
    assert_eq!(state.len(), 2);
    assert_eq!(state[0].0, "acme\u{1f}bot");
    assert_eq!(state[0].2.to_text(), "{\"v\":1}");
    assert_eq!(state[1].1, "b");
    assert!(import_state(&j("{}")).is_empty());
    assert_eq!(
        import_tenant(1, 2, 3).to_text(),
        "{\"events\":1,\"memories\":2,\"state\":3}"
    );
}

#[test]
fn an_attachment_is_described_by_what_was_put() {
    let meta = attachment_put(
        1,
        "acme",
        Some(2),
        "image/png",
        Some("cat.png".to_string()),
        12,
        99,
    );
    assert_eq!(
        meta.storage_key,
        "attachments/acme/00000000-0000-0000-0000-000000000001"
    );
    assert_eq!((meta.size, meta.created_at), (12, 99));
    assert!(is_image("image/png") && !is_image("application/pdf"));
    let (name, metadata) = image_entry(&meta);
    assert_eq!(name, "cat.png");
    assert_eq!(
        metadata.to_text(),
        "{\"tenant_id\":\"acme\",\"attachment\":true}"
    );
}

// ── Starting ─────────────────────────────────────────────────────────────────────────

#[test]
fn providers_are_chosen_by_name_and_key() {
    assert_eq!(choose_embedding("ollama", ""), EmbeddingChoice::Ollama);
    assert_eq!(choose_embedding("openai", "k"), EmbeddingChoice::OpenAi);
    assert_eq!(choose_embedding("openai", ""), EmbeddingChoice::Unknown);
    assert_eq!(
        choose_embedding("openai-compatible", ""),
        EmbeddingChoice::OpenAi
    );
    assert_eq!(choose_embedding("fastembed", ""), EmbeddingChoice::Local);
    assert_eq!(choose_embedding("", ""), EmbeddingChoice::Off);
    assert_eq!(choose_embedding("psychic", ""), EmbeddingChoice::Unknown);
    assert_eq!(
        choose_completion("anthropic", "cli", "", "k"),
        CompletionChoice::Anthropic
    );
    assert_eq!(choose_completion("anthropic", "cli", "k", ""), CompletionChoice::Off);
    assert_eq!(choose_completion("openai", "cli", "k", ""), CompletionChoice::OpenAi);
    assert_eq!(
        choose_completion("cli", "cli", "", ""),
        CompletionChoice::Command
    );
    assert_eq!(
        choose_reranker("llm", "ollama", "cli", "", ""),
        RerankChoice::Model(CompletionChoice::Ollama)
    );
    assert_eq!(
        choose_reranker("llm", "openai", "cli", "", ""),
        RerankChoice::Unavailable
    );
    assert_eq!(
        choose_reranker("cross_encoder", "", "cli", "", ""),
        RerankChoice::CrossEncoder
    );
    assert_eq!(choose_reranker("none", "", "cli", "", ""), RerankChoice::Off);
    assert_eq!(choose_reranker("dice", "", "cli", "", ""), RerankChoice::Unknown);
}

#[test]
fn event_vector_index_reloads_on_startup() {
    assert!(reloads_index("/d/episodic.duckdb", "/d/vectors"));
    assert!(!reloads_index(":memory:", "/d/vectors"));
    assert!(!reloads_index("/d/episodic.duckdb", ""));
    assert!(!persists_index(":memory:") && persists_index("/d/vectors"));
    assert!(is_in_memory(":memory:") && !is_in_memory("memory"));
    assert!(stores_in_s3("S3") && stores_in_s3("s3") && !stores_in_s3("local"));
    assert_eq!(page_limit(10, 3), 3);
    assert_eq!(page_limit(2, 3), 2);
    assert_eq!(rebuild_lexical_index(0, PAGE), Rebuild::From(2_000));
    assert_eq!(rebuild_lexical_index(2_000, 7), Rebuild::Done(2_007));
    assert_eq!(rebuild_lexical_index(2_000, 0), Rebuild::Done(2_000));
}

// ── Retention ────────────────────────────────────────────────────────────────────────

fn pairs(policies: &[Policy]) -> Vec<(String, u32)> {
    policies.iter().map(|p| (p.source.clone(), p.days)).collect()
}

#[test]
fn retention_policies_are_kept_per_source() {
    let none = retention_policies(None);
    assert!(none.is_empty());
    let p = set_retention_policy(none, "gh", 30);
    let p = set_retention_policy(p, "logs", 7);
    let p = set_retention_policy(p, "gh", 90);
    assert_eq!(
        pairs(&p),
        vec![("gh".to_string(), 90), ("logs".to_string(), 7)]
    );
    let stored = write_policies(&p);
    assert_eq!(stored.to_text(), "[[\"gh\",90],[\"logs\",7]]");
    assert_eq!(pairs(&retention_policies(Some(&stored))), pairs(&p));
    let p = remove_retention_policy(&p, "gh");
    assert_eq!(pairs(&p), vec![("logs".to_string(), 7)]);
    // One entry that cannot be read spoils the rest.
    for broken in ["{}", "[[\"a\", 1], [\"b\", -1]]", "[[\"a\", 1.5]]", "[[\"a\", 1, 2]]"] {
        assert!(retention_policies(Some(&j(broken))).is_empty(), "{broken}");
    }
}

#[test]
fn retention_deletes_by_policy_and_by_default() {
    let day = 86_400_000_000_000_i128;
    let now = 1_700_000_000_000_000_000;
    let p = set_retention_policy(vec![], "gh", 30);
    let p = set_retention_policy(p, "audit", 0);
    let plan = enforce_retention(&p, 365, now);
    assert_eq!(plan.len(), 2);
    assert_eq!(plan[0].only.as_deref(), Some("gh"));
    assert_eq!(plan[0].before, now - 30 * day);
    assert_eq!(plan[1].except, strings(&["gh", "audit"]));
    let (sql, params) = write_statement(&plan[0]).unwrap();
    assert_eq!(
        sql,
        "DELETE FROM episodic WHERE source = ? AND ts < ?::TIMESTAMPTZ"
    );
    assert_eq!(params, strings(&["gh", "2023-10-15T22:13:20+00:00"]));
    let (sql, params) = write_statement(&plan[1]).unwrap();
    assert_eq!(
        sql,
        "DELETE FROM episodic WHERE ts < ?::TIMESTAMPTZ AND source NOT IN (?, ?)"
    );
    assert_eq!(params, strings(&["2022-11-14T22:13:20+00:00", "gh", "audit"]));
    let plan = enforce_retention(&vec![], 1, now);
    let (sql, params) = write_statement(&plan[0]).unwrap();
    assert_eq!(sql, "DELETE FROM episodic WHERE ts < ?::TIMESTAMPTZ");
    assert_eq!(params, strings(&["2023-11-13T22:13:20+00:00"]));
    assert!(enforce_retention(&vec![], 0, now).is_empty());
    // More days than the calendar has.
    let plan = enforce_retention(&vec![], u32::MAX, now);
    assert!(write_statement(&plan[0]).is_none());
}

// ── Backups ──────────────────────────────────────────────────────────────────────────

fn manifest(version: u32, digests: &[(&str, &str)]) -> BackupManifest {
    BackupManifest {
        format_version: version,
        ecphoria_version: "1.0.0".to_string(),
        created_at: 0,
        counts: BackupCounts {
            episodic_events: 1,
            memories: 1,
            semantic_vectors: 0,
        },
        artifacts: digests
            .iter()
            .map(|(path, sha256)| BackupArtifact {
                path: path.to_string(),
                sha256: sha256.to_string(),
            })
            .collect(),
    }
}

#[test]
fn restore_rejects_corrupted_backup() {
    let m = manifest(1, &[("vectors", "aa"), ("state.db", "bb")]);
    assert!(verify_manifest(&m, &strings(&["aa", "bb"])).is_ok());
    assert_eq!(
        verify_manifest(&m, &strings(&["aa", "cc"])),
        Err(Error::Storage(
            "backup integrity check failed for 'state.db': manifest bb != actual cc".to_string()
        ))
    );
    let newer = manifest(2, &[]);
    assert_eq!(
        check_format(&newer),
        Err(Error::Storage(
            "backup manifest format v2 is newer than this build supports (v1); upgrade Ecphoria"
                .to_string()
        ))
    );
    assert!(verify_manifest(&newer, &vec![]).is_err());
    assert_eq!(
        parts(),
        strings(&["episodic_export", "memories_export", "vectors", "state.db"])
    );
}

fn file(path: &str, bytes: &str) -> TreeFile {
    TreeFile {
        path: path.to_string(),
        bytes: bytes.as_bytes().to_vec(),
    }
}

#[test]
fn digests_are_those_of_the_bytes() {
    assert_eq!(
        sha256_file(&b"abc".to_vec()),
        "ba7816bf8f01cfea414140de5dae2223b00361a396177a9cb410ff61f20015ad"
    );
    // A tree counts by path and bytes: `a/x`, a zero, `1`, and so on.
    let expected = sha256_file(&b"a/x\x001a.txt\x002".to_vec());
    assert_eq!(
        sha256_path(&vec![file("a.txt", "2"), file("a/x", "1")]),
        expected
    );
    assert_eq!(
        sha256_path(&vec![file("a/x", "1"), file("a.txt", "2")]),
        expected
    );
    assert_eq!(
        sha256_path(&vec![]),
        "e3b0c44298fc1c149afbf4c8996fb92427ae41e4649b934ca495991b7852b855"
    );
}

#[test]
fn prune_backups_keeps_newest_and_ignores_non_backups() {
    let names = strings(&[
        "20260103T000000Z",
        "20260101T000000Z",
        "20260105T000000Z",
        "20260102T000000Z",
        "20260104T000000Z",
    ]);
    assert_eq!(
        prune_backups(&names, 3),
        strings(&["20260101T000000Z", "20260102T000000Z"])
    );
    assert!(prune_backups(&names, 0).is_empty());
    assert!(prune_backups(&names, 5).is_empty());
}

const MANIFEST: &str = "manifest";

const FILES: [&str; 4] = [MANIFEST, "state.db", "memories_export/load.sql", "vectors/i"];

#[test]
fn the_manifest_is_uploaded_last_so_a_half_written_backup_has_none() {
    let dir = backup_prefix("backups/", "20260101T000000Z");
    assert_eq!(dir, "backups/20260101T000000Z/");
    let order = backup_to_storage(&dir, MANIFEST, &strings(&FILES));
    assert_eq!(order.len(), 4);
    assert!(order.last().unwrap().ends_with("/manifest"));
    assert_eq!(
        order
            .iter()
            .filter(|k| k.ends_with("/manifest"))
            .count(),
        1
    );
    assert!(confirm_upload(&dir, MANIFEST, &order, &order).is_ok());
    let manifest = BackupManifest {
        format_version: BACKUP_FORMAT_VERSION,
        ecphoria_version: "1".to_string(),
        created_at: 0,
        counts: BackupCounts {
            episodic_events: 0,
            memories: 1,
            semantic_vectors: 0,
        },
        artifacts: vec![
            BackupArtifact { path: "state.db".to_string(), sha256: "a".to_string() },
            BackupArtifact { path: "vectors".to_string(), sha256: "b".to_string() },
        ],
    };
    let summary = summarize_upload(&dir, MANIFEST, &manifest, &vec![3, u64::MAX, 0, 4]);
    assert_eq!(summary.prefix, dir);
    assert!(summary.manifest_key.ends_with("/manifest"));
    assert_eq!(summary.manifest_key, "backups/20260101T000000Z/manifest");
    assert_eq!(summary.artifacts, 2);
    assert_eq!(summary.bytes, u128::from(u64::MAX) + 7);
}

fn upload(swallow: &str) -> Result<(), Error> {
    let dir = backup_prefix("backups/", "t");
    let order = backup_to_storage(&dir, MANIFEST, &strings(&FILES));
    let present: Vec<String> = order
        .iter()
        .filter(|k| !k.ends_with(swallow))
        .cloned()
        .collect();
    confirm_upload(&dir, MANIFEST, &order, &present)
}

#[test]
fn an_artifact_that_did_not_land_fails_the_backup() {
    match upload("state.db") {
        Err(Error::Storage(m)) => {
            assert!(m.contains("backup incomplete"), "{m}");
            assert!(m.contains("state.db"), "{m}");
        }
        other => panic!("{other:?}"),
    }
}

#[test]
fn a_backup_with_no_manifest_is_refused_rather_than_reported_complete() {
    match upload(MANIFEST) {
        Err(Error::Storage(m)) => assert!(m.contains("manifest missing"), "{m}"),
        other => panic!("{other:?}"),
    }
}

#[test]
fn one_missing_file_inside_a_directory_artifact_still_fails() {
    match upload("load.sql") {
        Err(Error::Storage(m)) => {
            assert!(m.contains("backup incomplete"), "{m}");
            assert!(m.contains("load.sql"), "{m}");
        }
        other => panic!("{other:?}"),
    }
}

#[test]
fn the_prefix_keeps_one_directory_per_backup() {
    let dir = backup_prefix("backups/shard-0/", "t");
    assert!(dir.starts_with("backups/shard-0/"), "{dir}");
    for key in backup_to_storage(&dir, MANIFEST, &strings(&FILES)) {
        assert!(key.starts_with(&dir), "{key}");
    }
    assert!(check_bucket("b").is_ok());
    assert_eq!(
        check_bucket(""),
        Err(Error::Config(
            "S3 bucket not configured for backup".to_string()
        ))
    );
}
