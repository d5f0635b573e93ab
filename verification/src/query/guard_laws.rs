//! Which tables a query is seen to read, and what becomes of it for one tenant.

use vstd::prelude::*;

use crate::error::ErrorView;
use crate::query::sql_guard::{
    dangling_at, dangling_grantor, forbidden, forbidden_among, grantees_before,
    lemma_tables_are_named, relations, scoped, scoped_names, scoped_query, solid, sql_statements,
    sql_tokens, statement_text, table_of, tables_of, view_of, with_tables, SqlToken,
};
use crate::text::{ascii_lowered, joined};

verus! {

/// Every table that a query reads is reported, by the last part of its name and in lower case, and
/// nothing else is; none is reported twice.
pub proof fn law_every_table_is_reported(
    stmts: Seq<sqlparser::ast::Statement>,
    table: Seq<char>,
)
    ensures
        tables_of(stmts).contains(table) <==> exists|i: int, j: int|
            0 <= i < stmts.len() && 0 <= j < relations(stmts[i]).len() && (
            #[trigger] relations(stmts[i])[j]).len() > 0 && ascii_lowered(
                relations(stmts[i])[j].last(),
            ) == table,
        tables_of(stmts).no_duplicates(),
{
    lemma_tables_are_named(stmts, table);
    if tables_of(stmts).contains(table) {
        let (i, j) = choose|i: int, j: int|
            0 <= i < stmts.len() && 0 <= j < relations(stmts[i]).len() && #[trigger] relations(
                stmts[i],
            )[j].len() > 0 && table_of(relations(stmts[i])[j]) == table;
        assert(ascii_lowered(relations(stmts[i])[j].last()) == table);
    }
    if exists|i: int, j: int|
        0 <= i < stmts.len() && 0 <= j < relations(stmts[i]).len() && (
        #[trigger] relations(stmts[i])[j]).len() > 0 && ascii_lowered(
            relations(stmts[i])[j].last(),
        ) == table {
        let (i, j) = choose|i: int, j: int|
            0 <= i < stmts.len() && 0 <= j < relations(stmts[i]).len() && (
            #[trigger] relations(stmts[i])[j]).len() > 0 && ascii_lowered(
                relations(stmts[i])[j].last(),
            ) == table;
        assert(table_of(relations(stmts[i])[j]) == table);
    }
    lemma_tables_once(stmts);
}

proof fn lemma_tables_once(stmts: Seq<sqlparser::ast::Statement>)
    ensures
        tables_of(stmts).no_duplicates(),
    decreases stmts.len(),
{
    if stmts.len() > 0 {
        lemma_tables_once(stmts.drop_last());
        lemma_with_tables_once(tables_of(stmts.drop_last()), relations(stmts.last()));
    }
}

proof fn lemma_with_tables_once(before: Seq<Seq<char>>, names: Seq<Seq<Seq<char>>>)
    requires
        before.no_duplicates(),
    ensures
        with_tables(before, names).no_duplicates(),
    decreases names.len(),
{
    if names.len() > 0 {
        lemma_with_tables_once(before, names.drop_last());
        let had = with_tables(before, names.drop_last());
        let has = with_tables(before, names);
        assert forall|i: int, j: int|
            0 <= i < has.len() && 0 <= j < has.len() && i != j implies has[i] != has[j] by {
            if i < had.len() {
                assert(had.contains(had[i]));
            }
            if j < had.len() {
                assert(had.contains(had[j]));
            }
        }
    }
}

proof fn lemma_first_view(scope: Seq<(Seq<char>, Seq<char>)>, table: Seq<char>)
    ensures
        view_of(scope, table) is None <==> forall|k: int|
            0 <= k < scope.len() ==> (#[trigger] scope[k]).0 != table,
        view_of(scope, table) is Some ==> exists|k: int|
            0 <= k < scope.len() && (#[trigger] scope[k]) == (table, view_of(scope, table)->0),
    decreases scope.len(),
{
    if scope.len() > 0 && scope[0].0 != table {
        let rest = scope.drop_first();
        lemma_first_view(rest, table);
        assert forall|k: int| 0 <= k < rest.len() implies #[trigger] rest[k] == scope[k + 1] by {}
        if view_of(scope, table) is Some {
            let k = choose|k: int|
                0 <= k < rest.len() && (#[trigger] rest[k]) == (table, view_of(rest, table)->0);
            assert(scope[k + 1] == (table, view_of(scope, table)->0));
        } else {
            assert forall|k: int| 0 <= k < scope.len() implies (#[trigger] scope[k]).0
                != table by {
                if k > 0 {
                    assert(rest[k - 1] == scope[k]);
                }
            }
        }
        if forall|k: int| 0 <= k < scope.len() ==> (#[trigger] scope[k]).0 != table {
            assert forall|k: int| 0 <= k < rest.len() implies (#[trigger] rest[k]).0 != table by {
                assert(scope[k + 1].0 != table);
            }
        }
    } else if scope.len() > 0 {
        assert(scope[0] == (table, view_of(scope, table)->0));
    }
}

/// A table of the scope becomes the tenant's view of it, in whatever case and behind whatever
/// qualification it is written; any other relation stays as it is.
pub proof fn law_tables_become_the_tenants_views(
    scope: Seq<(Seq<char>, Seq<char>)>,
    names: Seq<Seq<Seq<char>>>,
    i: int,
    k: int,
)
    requires
        0 <= i < names.len(),
        names[i].len() > 0,
        forall|a: int, b: int|
            0 <= a < b < scope.len() ==> (#[trigger] scope[a]).0 != (#[trigger] scope[b]).0,
    ensures
        scoped_names(scope, names).len() == names.len(),
        0 <= k < scope.len() && scope[k].0 == ascii_lowered(names[i].last()) ==> scoped_names(
            scope,
            names,
        )[i] == Some(scope[k].1),
        (forall|m: int|
            0 <= m < scope.len() ==> (#[trigger] scope[m]).0 != ascii_lowered(names[i].last()))
            ==> scoped_names(scope, names)[i] is None,
{
    let table = ascii_lowered(names[i].last());
    lemma_first_view(scope, table);
    if 0 <= k < scope.len() && scope[k].0 == table {
        let m = choose|m: int|
            0 <= m < scope.len() && (#[trigger] scope[m]) == (table, view_of(scope, table)->0);
        if m < k {
            assert(scope[m].0 != scope[k].0);
        }
        if k < m {
            assert(scope[k].0 != scope[m].0);
        }
    }
}

/// The views themselves cannot be addressed: a relation whose name begins like that of an internal
/// view of a table is refused, unless it is a table of the scope.
pub proof fn law_views_cannot_be_addressed(
    scope: Seq<(Seq<char>, Seq<char>)>,
    names: Seq<Seq<Seq<char>>>,
    i: int,
    k: int,
    rest: Seq<char>,
)
    requires
        0 <= i < names.len(),
        names[i].len() > 0,
        0 <= k < scope.len(),
        ascii_lowered(names[i].last()) == scope[k].0 + "__t_"@ + rest,
        forall|m: int|
            0 <= m < scope.len() ==> (#[trigger] scope[m]).0 != ascii_lowered(names[i].last()),
    ensures
        forbidden_among(scope, names),
{
    let table = ascii_lowered(names[i].last());
    lemma_first_view(scope, table);
    let head = scope[k].0 + "__t_"@;
    assert(table.take(head.len() as int) =~= head);
    assert(crate::query::sql_guard::internal(scope, table));
    assert(table_of(names[i]) == table);
}

/// A query of one tenant is refused where it cannot be parsed, says nothing, or addresses an
/// internal view; otherwise all of its statements are run, in order, each on the tenant's views.
pub proof fn law_queries_are_confined_or_refused(
    sql: Seq<char>,
    scope: Seq<(Seq<char>, Seq<char>)>,
)
    ensures
        ({
            let r = scoped_query(sql, scope);
            let parsed = sql_statements(sql);
            &&& r is Ok <==> !dangling_grantor(sql) && parsed is Ok && parsed->Ok_0.len() > 0
                && forall|i: int|
                0 <= i < parsed->Ok_0.len() ==> !forbidden(scope, #[trigger] parsed->Ok_0[i])
            &&& r is Ok ==> r->Ok_0 == joined(
                parsed->Ok_0.map_values(
                    |s: sqlparser::ast::Statement| statement_text(scoped(scope, s)),
                ),
                "; "@,
            )
            &&& r is Err ==> r->Err_0 is Query
            &&& !dangling_grantor(sql) && parsed is Err ==> r == Err::<Seq<char>, ErrorView>(
                ErrorView::Query("SQL parse error (tenant scope): "@ + parsed->Err_0),
            )
        }),
{
    let parsed = sql_statements(sql);
    if parsed is Ok {
        assert(crate::query::sql_guard::scoped_texts(scope, parsed->Ok_0) =~= parsed->Ok_0.map_values(
            |s: sqlparser::ast::Statement| statement_text(scoped(scope, s)),
        ));
    }
}

/// A text without white space is looked at whole.
proof fn lemma_nothing_but_words(t: Seq<SqlToken>)
    requires
        forall|i: int| 0 <= i < t.len() ==> #[trigger] t[i] != SqlToken::Space,
    ensures
        solid(t) == t,
    decreases t.len(),
{
    reveal(Seq::filter);
    if t.len() > 0 {
        let rest = t.drop_last();
        assert forall|i: int| 0 <= i < rest.len() implies #[trigger] rest[i] != SqlToken::Space by {
            assert(rest[i] == t[i]);
        }
        lemma_nothing_but_words(rest);
        assert(t[t.len() - 1] == t.last());
    }
    assert(solid(t) =~= t);
}

/// A grant says who granted it: `GRANTED BY` behind a grantee, with nothing behind it or with what
/// cannot be a name, is refused.
pub proof fn law_unnamed_grantors_are_refused(sql: Seq<char>, t: Seq<SqlToken>, g: int)
    requires
        sql_tokens(sql) == Some(t),
        forall|i: int| 0 <= i < t.len() ==> #[trigger] t[i] != SqlToken::Space,
        2 <= g && g + 1 < t.len(),
        t[g - 2] == SqlToken::To || t[g - 2] == SqlToken::From,
        t[g - 1] != SqlToken::Comma && t[g - 1] != SqlToken::Other,
        t[g] == SqlToken::Granted && t[g + 1] == SqlToken::By,
        g + 2 == t.len() || t[g + 2] == SqlToken::Comma || t[g + 2] == SqlToken::Other,
    ensures
        dangling_grantor(sql),
{
    lemma_nothing_but_words(t);
    assert(grantees_before(t, g));
    assert(dangling_at(t, g));
}

/// Is a name behind the `GRANTED BY` at `k`, where one stands there?
pub open spec fn grantor_at(t: Seq<SqlToken>, k: int) -> bool {
    t[k] == SqlToken::Granted && t[k + 1] == SqlToken::By ==> k + 2 < t.len() && t[k + 2]
        != SqlToken::Comma && t[k + 2] != SqlToken::Other
}

/// A text in which `GRANTED BY` always names somebody is not refused on that account.
pub proof fn law_named_grantors_are_not_refused(sql: Seq<char>, t: Seq<SqlToken>)
    requires
        sql_tokens(sql) == Some(t),
        forall|i: int| 0 <= i < t.len() ==> #[trigger] t[i] != SqlToken::Space,
        forall|k: int| 0 <= k && k + 1 < t.len() ==> #[trigger] grantor_at(t, k),
    ensures
        !dangling_grantor(sql),
{
    lemma_nothing_but_words(t);
    if dangling_grantor(sql) {
        let k = choose|k: int| #[trigger] dangling_at(t, k);
        assert(grantor_at(t, k));
        assert(t[k + 2] != SqlToken::Space);
    }
}

} // verus!
