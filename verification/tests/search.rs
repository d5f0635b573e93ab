//! Searching memories.

use ecphoria_core::engine::ranking::{
    grantor_scope, merge_shared, rank, rerank, settle, truncate, By,
};
use ecphoria_core::engine::search::{
    age_seconds, candidates, fall_back, graph_links, memory_index_search, narrow, query_record,
    start, Candidates, EdgeTerms, Search, SearchWidths, Start,
};
use ecphoria_core::json::Json;
use ecphoria_core::memory::cognition::{Memory, MemoryHit, MemoryScope, MemoryState};
use ecphoria_core::score::Score;

fn score(x: f32) -> Score {
    Score { bits: x.to_bits() }
}

fn scope() -> MemoryScope {
    MemoryScope::user("alice")
}

fn memory(id: u128, project: Option<&str>) -> Memory {
    let mut m = Memory::new(id, scope(), format!("memory {id}"), 0);
    m.project = project.map(str::to_string);
    m
}

fn hit(id: u128, s: f32, similarity: Option<f32>) -> MemoryHit {
    MemoryHit {
        memory: memory(id, None),
        score: score(s),
        similarity: similarity.map(score),
        lexical: None,
    }
}

fn ids(hits: &[MemoryHit]) -> Vec<u128> {
    hits.iter().map(|h| h.memory.id).collect()
}

const WIDTHS: SearchWidths = SearchWidths {
    scan_cap: 200,
    pool: 50,
    rerank_candidates: None,
};

#[test]
fn searches_start_by_what_is_asked() {
    assert_eq!(start("  ", 5, &WIDTHS), Start::Recent { limit: 5 });
    assert_eq!(start("cats", 0, &WIDTHS), Start::Recent { limit: 1 });
    assert_eq!(
        start("cats", 5, &WIDTHS),
        Start::Ranked {
            scan_cap: 200,
            fetch: 50,
            pool: 50
        }
    );
    assert_eq!(
        start("cats", 300, &WIDTHS),
        Start::Ranked {
            scan_cap: 300,
            fetch: 1_200,
            pool: 300
        }
    );
    let second = SearchWidths {
        rerank_candidates: Some(20),
        ..WIDTHS
    };
    assert_eq!(
        start("cats", 300, &second),
        Start::Ranked {
            scan_cap: 300,
            fetch: 1_200,
            pool: 50
        }
    );
}

#[test]
fn the_index_only_proposes() {
    assert!(matches!(candidates(Some(vec![3])), Candidates::Named(v) if v == vec![3]));
    assert!(matches!(candidates(Some(vec![])), Candidates::Nothing));
    assert!(matches!(candidates(None), Candidates::Scan));
}

#[test]
fn projects_are_isolable_yet_jointly_searchable() {
    let all = vec![
        memory(1, Some("payments")),
        memory(2, Some("platform")),
        memory(3, None),
    ];
    let only = narrow(&all, &Some("payments".to_string()));
    assert_eq!(only.len(), 1);
    assert_eq!(only[0].id, 1);
    assert!(narrow(&all, &Some("nope".to_string())).is_empty());
    assert_eq!(narrow(&all, &None).len(), 3);
    let hits = fall_back(&all, &Some("platform".to_string()));
    assert_eq!(ids(&hits), vec![2]);
    assert_eq!(hits[0].score, score(0.0));
    // By vector and along the graph, too.
    let project = Some("payments".to_string());
    let s = Search::new(&scope(), &project);
    let near = vec![
        MemoryHit {
            memory: memory(1, Some("payments")),
            score: score(0.9),
            similarity: Some(score(0.9)),
            lexical: None,
        },
        hit(3, 0.8, Some(0.8)),
    ];
    let s = s.take_vectors(&near);
    let s = s.take_linked(2, Some(memory(2, Some("platform"))));
    let arms = s.arms(score(2.0), score(1.0));
    assert_eq!(arms.len(), 1);
    assert_eq!(arms[0].ids, vec![1]);
    assert_eq!(arms[0].weight, score(2.0));
}

#[test]
fn hits_report_the_per_arm_relevance_signals() {
    let s = Search::new(&scope(), &None);
    let s = s.take_words(
        vec![memory(1, None), memory(2, None)],
        &vec![(1, score(3.5)), (0, score(1.5))],
    );
    let s = s.take_vectors(&vec![hit(2, 0.7, Some(0.7)), hit(5, 0.6, None)]);
    let arms = s.arms(score(2.0), score(1.0));
    assert_eq!(arms[0].ids, vec![2, 5]);
    assert_eq!(arms[1].ids, vec![2, 1]);
    let (s, m) = s.draw(2);
    let h = s.hit(m.unwrap(), score(0.03));
    assert_eq!(h.similarity, Some(score(0.7)));
    assert_eq!(h.lexical, Some(score(3.5)));
    // A memory is drawn once; what was never read is not there.
    let (s, m) = s.draw(2);
    assert!(m.is_none());
    let (s, m) = s.draw(5);
    let h = s.hit(m.unwrap(), score(0.01));
    assert_eq!((h.similarity, h.lexical), (None, None));
}

#[test]
fn similarity_is_absent_when_no_embeddings_are_configured() {
    let s = Search::new(&scope(), &None);
    let s = s.take_words(vec![memory(1, None)], &vec![(0, score(1.0))]);
    let (s, m) = s.draw(1);
    let h = s.hit(m.unwrap(), score(0.1));
    assert!(h.similarity.is_none());
    assert!(h.lexical.is_some());
}

#[test]
fn memory_search_graph_expansion_surfaces_linked_memory() {
    let edges = vec![
        EdgeTerms {
            source_memory_id: Some(7),
            src: vec!["acme".to_string()],
            dst: vec!["offsite".to_string()],
        },
        EdgeTerms {
            source_memory_id: Some(8),
            src: vec!["other".to_string()],
            dst: vec!["thing".to_string()],
        },
        EdgeTerms {
            source_memory_id: None,
            src: vec!["acme".to_string()],
            dst: vec![],
        },
        EdgeTerms {
            source_memory_id: Some(7),
            src: vec![],
            dst: vec!["acme".to_string()],
        },
    ];
    assert_eq!(graph_links(&edges, &vec!["acme".to_string()]), vec![7]);
    let s = Search::new(&scope(), &None);
    assert!(!s.knows(7));
    let s = s.take_linked(7, Some(memory(7, None)));
    assert!(s.knows(7));
    assert_eq!(s.arms(score(1.0), score(1.0))[0].ids, vec![7]);
}

#[test]
fn the_graph_surfaces_nothing_of_another_scope() {
    let s = Search::new(&scope(), &None);
    let mut theirs = memory(7, None);
    theirs.scope = MemoryScope::user("bob");
    let s = s.take_linked(7, Some(theirs));
    let mut gone = memory(8, None);
    gone.state = MemoryState::Superseded;
    let s = s.take_linked(8, Some(gone));
    let s = s.take_linked(9, None);
    assert!(s.arms(score(1.0), score(1.0)).is_empty());
}

#[test]
fn superseded_memories_never_resurface_from_the_index() {
    let mut gone = memory(2, None);
    gone.state = MemoryState::Superseded;
    let hits = memory_index_search(vec![
        (Some(memory(1, None)), score(0.9)),
        (Some(gone), score(0.8)),
        (None, score(0.7)),
    ]);
    assert_eq!(ids(&hits), vec![1]);
    assert_eq!(hits[0].similarity, Some(score(0.9)));
}

#[test]
fn min_similarity_filters_without_dropping_lexical_only_hits() {
    // Every vector is identical, so that the similarity is one: a floor below it keeps the hit, and
    // one above it drops the hit rather than ignoring the filter.
    let scope = MemoryScope::tenant("default");
    let content = "quorum leases for shard handoff".to_string();
    let hits = || {
        let m = Memory::new(1, scope.copy(), content.clone(), 0);
        let found = memory_index_search(vec![(Some(m), score(1.0))]);
        let s = Search::new(&scope, &None).take_vectors(&found);
        let arms = s.arms(score(1.0), score(1.0));
        let (s, m) = s.draw(arms[0].ids[0]);
        vec![s.hit(m.unwrap(), score(0.5))]
    };
    assert_eq!(settle(hits(), Some(score(0.5))).len(), 1);
    assert!(settle(hits(), Some(score(1.5))).is_empty());
}

#[test]
fn a_similarity_floor_keeps_what_has_no_similarity() {
    let found = || vec![hit(1, 0.1, Some(0.4)), hit(2, 0.3, None), hit(3, 0.2, Some(0.9))];
    assert_eq!(ids(&settle(found(), Some(score(0.5)))), vec![2, 3]);
    assert_eq!(ids(&settle(found(), None)), vec![2, 3, 1]);
    assert_eq!(ids(&settle(found(), Some(score(1.5)))), vec![2]);
}

#[test]
fn ranking_is_stable_and_keeps_everything() {
    let hits = vec![
        hit(1, 0.5, None),
        hit(2, 0.7, None),
        hit(3, 0.5, None),
        hit(4, -0.0, None),
        hit(5, 0.0, None),
        hit(6, -1.0, None),
    ];
    assert_eq!(ids(&rank(&By::Number, hits)), vec![2, 1, 3, 4, 5, 6]);
    // The order of all bit patterns tells the zeros apart.
    let hits = vec![hit(4, -0.0, None), hit(5, 0.0, None), hit(6, f32::NAN, None)];
    assert_eq!(ids(&rank(&By::Total, hits)), vec![6, 5, 4]);
}

#[test]
fn memory_search_applies_reranker() {
    let hits = || vec![hit(1, 0.9, None), hit(2, 0.8, None)];
    let better = rerank(hits(), Some(vec![score(1.0), score(10.0)]));
    assert_eq!(ids(&better), vec![2, 1]);
    assert_eq!(better[0].score, score(10.0));
    // A reply that does not fit is passed over.
    assert_eq!(ids(&rerank(hits(), Some(vec![score(1.0)]))), vec![1, 2]);
    assert_eq!(ids(&rerank(hits(), None)), vec![1, 2]);
    assert_eq!(ids(&truncate(hits(), 1)), vec![1]);
    assert_eq!(ids(&truncate(hits(), 5)), vec![1, 2]);
}

#[test]
fn cross_scope_grants_widen_read_within_tenant_only() {
    let mine = MemoryScope {
        tenant_id: "acme".to_string(),
        user_id: Some("alice".to_string()),
        agent_id: Some("bot".to_string()),
        session_id: Some("s".to_string()),
    };
    let theirs = grantor_scope(&mine, "bob".to_string());
    assert_eq!(theirs.tenant_id, "acme");
    assert_eq!(theirs.user_id.as_deref(), Some("bob"));
    assert_eq!((theirs.agent_id, theirs.session_id), (None, None));
    let merged = merge_shared(
        vec![
            hit(1, 0.2, None),
            hit(2, 0.5, None),
            hit(1, 0.9, Some(0.1)),
            hit(3, 0.4, None),
        ],
        2,
    );
    assert_eq!(ids(&merged), vec![1, 2]);
    assert_eq!(merged[0].score, score(0.9));
    assert_eq!(merged[0].similarity, None, "the first hit stays");
}

#[test]
fn searches_are_recorded_as_they_went() {
    let r = query_record(
        "quorum leases",
        &MemoryScope::tenant(""),
        5,
        &Some("platform".to_string()),
        &vec![],
        false,
        None,
        Json::Null,
    );
    assert_eq!(r.tenant_id, "default");
    assert_eq!(r.results, 0);
    assert_eq!(r.top_subject, None);
    assert_eq!(r.query.as_deref(), Some("quorum leases"));
    let mut top = hit(1, 0.5, None);
    top.memory.subject = Some("adr-7".to_string());
    let r = query_record("q", &scope(), 5, &None, &vec![top], true, None, Json::Null);
    assert_eq!((r.results, r.matched), (1, true));
    assert_eq!(r.top_subject.as_deref(), Some("adr-7"));
}

#[test]
fn ages_are_whole_seconds() {
    assert_eq!(age_seconds(3_500_000_000, 1_000_000_000), 2);
    assert_eq!(age_seconds(1, 2), 0);
}
