//! SQL that is held to one tenant.

use ecphoria_core::error::Error;
use ecphoria_core::query::sql_guard::{referenced_tables, scope_tables, ScopedTable};

fn memories_of_acme() -> Vec<ScopedTable> {
    vec![ScopedTable {
        base: "memories".to_string(),
        view: "memories__t_61636d65".to_string(),
    }]
}

#[test]
fn extracts_referenced_tables() {
    let t = referenced_tables("SELECT * FROM memories m JOIN memory_edges e ON e.src = m.subject")
        .unwrap();
    assert!(t.contains(&"memories".to_string()));
    assert!(t.contains(&"memory_edges".to_string()));
    assert!(referenced_tables("SELECT 1").unwrap().is_empty());
}

#[test]
fn scopes_only_named_tables() {
    let out = scope_tables(
        "SELECT content FROM memories WHERE valid_to IS NULL",
        &memories_of_acme(),
    )
    .unwrap();
    // The bare `memories` reference is replaced by acme's per-tenant view (`memories__t_…`), so
    // the raw `FROM memories ` form is gone.
    let lower = out.to_lowercase();
    assert!(lower.contains("memories__t_"), "view not injected: {out}");
    assert!(
        !lower.contains("from memories "),
        "raw table still present: {out}"
    );
}

#[test]
fn rejects_internal_view_reference() {
    let scope = memories_of_acme();
    let sql = format!("SELECT * FROM {}", scope[0].view);
    assert!(scope_tables(&sql, &scope).is_err());
}

#[test]
fn a_scoped_statement_is_written_out() {
    let out = scope_tables("select content from memories", &memories_of_acme()).unwrap();
    assert_eq!(out, "SELECT content FROM memories__t_61636d65");
    // Other tables keep their names, and so do tables inside a subquery of a scoped one.
    let out = scope_tables(
        "SELECT * FROM episodic WHERE id IN (SELECT source FROM memories)",
        &memories_of_acme(),
    )
    .unwrap();
    assert_eq!(
        out,
        "SELECT * FROM episodic WHERE id IN (SELECT source FROM memories__t_61636d65)"
    );
}

#[test]
fn what_cannot_be_parsed_is_a_query_error() {
    let err = scope_tables("SELEC nothing", &memories_of_acme()).unwrap_err();
    assert!(matches!(err, Error::Query(_)), "{err:?}");
    let err = referenced_tables("SELEC nothing").unwrap_err();
    assert!(matches!(err, Error::Query(_)), "{err:?}");
}

#[test]
fn a_scoped_query_names_no_base_table() {
    let scope = memories_of_acme();
    let sql = "SELECT * FROM Memories m JOIN episodic e ON e.id = m.id";
    let out = scope_tables(sql, &scope).unwrap();
    let tables = referenced_tables(&out).unwrap();
    assert_eq!(tables, vec!["memories__t_61636d65", "episodic"]);
    // Its own view is refused the next time, and other tables are not.
    assert!(scope_tables(&out, &scope).is_err());
    let other = scope_tables("SELECT 1 FROM episodic", &scope).unwrap();
    assert_eq!(scope_tables(&other, &scope).unwrap(), other);
}

#[test]
fn a_grant_by_nobody_is_refused() {
    let scope = memories_of_acme();
    for sql in [
        "GRANT SELECT ON t TO u GRANTED BY 1",
        "GRANT SELECT ON t TO u GRANTED BY",
        "grant select on t to u, \"v\" granted /* by whom? */ by -- nobody",
        "GRANT ALL ON t TO u WITH GRANT OPTION GRANTED BY ;",
        "GRANT ALL ON t TO u, WITH GRANT OPTION GRANTED BY 1",
        "GRANT SELECT ON to TO u GRANTED BY 1",
        "SELECT 1; REVOKE SELECT ON t FROM u GRANTED BY (x)",
    ] {
        assert_eq!(
            referenced_tables(sql),
            Err(Error::Query("SQL parse error: GRANTED BY names nobody".to_string())),
            "{sql}"
        );
        assert_eq!(
            scope_tables(sql, &scope),
            Err(Error::Query(
                "SQL parse error (tenant scope): GRANTED BY names nobody".to_string()
            )),
            "{sql}"
        );
    }
    // Somebody is named, or nothing is granted.
    for sql in [
        "GRANT SELECT ON t TO u GRANTED BY admin",
        "REVOKE SELECT ON t FROM u GRANTED BY \"a b\" CASCADE",
        "SELECT 'GRANTED BY 1' FROM t",
        "SELECT granted by, x FROM t",
        "SELECT x FROM a, granted by, c",
    ] {
        assert!(referenced_tables(sql).is_ok(), "{sql}");
    }
    assert_eq!(
        referenced_tables("SELECT x FROM a, granted by, c").unwrap(),
        vec!["a", "granted", "c"]
    );
}

#[test]
fn two_minus_signs_are_written_as_a_comment() {
    // What the parser writes here does not parse again.
    let out = scope_tables("SELECT - -1 FROM memories", &memories_of_acme()).unwrap();
    assert_eq!(out, "SELECT --1 FROM memories__t_61636d65");
    assert!(referenced_tables(&out).is_err());
}
