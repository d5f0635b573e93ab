//! Match expressions, and what a full-text index makes of them.

use ecphoria_core::memory::lexical::build_match_expr;
use rusqlite::Connection;

fn stop_words() -> Vec<String> {
    ["the", "a", "of", "and", "or", "not", "for", "over", "why", "to"]
        .iter()
        .map(|s| s.to_string())
        .collect()
}

fn expr(query: &str) -> Option<String> {
    build_match_expr(query, &stop_words())
}

/// A full-text index over texts, by number.
struct Index {
    db: Connection,
}

impl Index {
    fn new() -> Index {
        let db = Connection::open_in_memory().unwrap();
        db.execute_batch(
            "CREATE TABLE docs (rowid INTEGER PRIMARY KEY, scope TEXT NOT NULL);
             CREATE VIRTUAL TABLE fts USING fts5(
                 content, tokenize = \"porter unicode61 tokenchars '-_.'\"
             );",
        )
        .unwrap();
        Index { db }
    }

    fn put(&self, id: i64, scope: &str, content: &str) {
        self.db
            .execute("INSERT INTO docs(rowid, scope) VALUES(?1, ?2)", (id, scope))
            .unwrap();
        self.db
            .execute(
                "INSERT INTO fts(rowid, content) VALUES(?1, ?2)",
                (id, content),
            )
            .unwrap();
    }

    fn search(&self, scope: &str, query: &str) -> Vec<i64> {
        let Some(e) = expr(query) else {
            return Vec::new();
        };
        let mut stmt = self
            .db
            .prepare(
                "SELECT d.rowid FROM fts JOIN docs d ON d.rowid = fts.rowid
                 WHERE fts MATCH ?1 AND d.scope = ?2 ORDER BY bm25(fts)",
            )
            .unwrap();
        let rows = stmt
            .query_map((e, scope), |row| row.get::<_, i64>(0))
            .unwrap();
        rows.map(|r| r.unwrap()).collect()
    }
}

#[test]
fn an_expression_finds_the_best_match_first() {
    let ix = Index::new();
    ix.put(1, "t", "USearch was chosen over pgvector for the index");
    ix.put(2, "t", "A general overview of the project");
    let hits = ix.search("t", "why usearch over pgvector");
    assert_eq!(hits[0], 1, "the matching document ranks first");
}

#[test]
fn an_identifier_is_one_term_of_an_expression() {
    // These must not shred into common words.
    let ix = Index::new();
    ix.put(
        1,
        "t",
        "Set ECPHORIA_STORAGE__DATA_DIR to change the data directory",
    );
    ix.put(
        2,
        "t",
        "The storage engine writes data to a directory on disk",
    );
    let hits = ix.search("t", "ECPHORIA_STORAGE__DATA_DIR");
    assert_eq!(hits, vec![1], "only the exact identifier matches");
    let hits = ix.search("t", "ecphoria-core crate");
    assert!(
        hits.is_empty(),
        "hyphenated identifier is one term, not two"
    );
}

#[test]
fn an_expression_leaves_scopes_to_the_query() {
    let ix = Index::new();
    ix.put(1, "tenant-a", "shared secret plan");
    ix.put(2, "tenant-b", "shared secret plan");
    assert_eq!(ix.search("tenant-a", "shared secret plan"), vec![1]);
}

#[test]
fn operators_are_quoted_in_an_expression() {
    // The index would otherwise parse these as syntax and error or mis-rank.
    let ix = Index::new();
    ix.put(1, "t", "the release notes mention a fix");
    for q in [
        "release OR notes",
        "release AND notes",
        "\"release\" NEAR notes",
        "release*",
        "(release notes)",
        "release -notes",
        "NOT release",
    ] {
        let hits = ix.search("t", q);
        assert_eq!(hits.len(), 1, "query {q:?} should match the one document");
    }
}

#[test]
fn there_is_no_expression_without_words() {
    let ix = Index::new();
    ix.put(1, "t", "some content");
    assert!(ix.search("t", "").is_empty());
    assert!(ix.search("t", "   ").is_empty());
    assert!(ix.search("t", "the a of and").is_empty());
    assert!(ix.search("t", "!!! ??? ...").is_empty());
}

#[test]
fn an_expression_finds_a_buried_text() {
    // The needle is indexed first, and is buried under what comes later.
    let ix = Index::new();
    ix.put(0, "t", "we adopted quorum leases for shard handoff");
    for i in 1..5_001 {
        ix.put(
            i,
            "t",
            &format!("routine background compaction completed for partition {i}"),
        );
    }
    let hits = ix.search("t", "quorum leases shard handoff");
    assert_eq!(hits[0], 0, "buried document is still rank 1 among 5001");
}

#[test]
fn expressions_are_exact() {
    assert_eq!(
        expr("Release v1. of ecphoria-core").unwrap(),
        "\"release\" OR \"v1\" OR \"ecphoria-core\""
    );
    assert_eq!(expr("ÄRGER in .env").unwrap(), "\"ärger\" OR \"in\" OR \"env\"");
    assert_eq!(expr("--- ... ___"), None);
    assert_eq!(expr(""), None);
}
