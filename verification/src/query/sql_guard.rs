//! Guarding of SQL: which tables a query reads, and how a query of one tenant is confined to the
//! views that hold its own rows.

use core::ops::ControlFlow;

use sqlparser::ast::{visit_relations, visit_relations_mut, Ident, ObjectName, Statement};
use sqlparser::keywords::Keyword;
use sqlparser::tokenizer::{Token, Tokenizer};
use vstd::prelude::*;

use crate::error::{Error, ErrorView};
use crate::text;
use crate::text::{ascii_lowered, begins, joined, views};

verus! {

broadcast use vstd::string::group_string_axioms;

// ── The parser ───────────────────────────────────────────────────────────────────────

/// `sqlparser::ast::Statement`, one parsed statement.
#[verifier::external_type_specification]
#[verifier::external_body]
pub struct ExStatement(Statement);

/// A token of SQL, as far as a grantor can be told by it.
#[derive(Debug, Clone, Copy, PartialEq, Eq, Structural)]
pub enum SqlToken {
    /// White space or a comment.
    Space,
    Comma,
    /// The keywords around a grantor.
    To,
    From,
    With,
    Grant,
    Opt,
    Granted,
    By,
    /// Any other word, quoted or not, or a quoted text.
    Word,
    Other,
}

/// What `sqlparser::tokenizer::Tokenizer::tokenize` makes of a text under the DuckDB dialect, or
/// nothing where it refuses it.
pub uninterp spec fn sql_tokens(sql: Seq<char>) -> Option<Seq<SqlToken>>;

/// `sqlparser::tokenizer::Tokenizer::tokenize` under the DuckDB dialect, each token by its kind and
/// each unquoted word by its keyword.
#[verifier::external_body]
fn read_tokens(sql: &str) -> (r: Option<Vec<SqlToken>>)
    ensures
        match r {
            Some(tokens) => sql_tokens(sql@) == Some(tokens@),
            None => sql_tokens(sql@) is None,
        },
{
    let dialect = sqlparser::dialect::DuckDbDialect {};
    let tokens = Tokenizer::new(&dialect, sql).tokenize().ok()?;
    let kind = |t: Token| match t {
        Token::Whitespace(_) => SqlToken::Space,
        Token::Comma => SqlToken::Comma,
        Token::SingleQuotedString(_) | Token::DoubleQuotedString(_) => SqlToken::Word,
        Token::Word(w) => match w.keyword {
            Keyword::TO => SqlToken::To, Keyword::FROM => SqlToken::From,
            Keyword::WITH => SqlToken::With, Keyword::GRANT => SqlToken::Grant,
            Keyword::OPTION => SqlToken::Opt, Keyword::GRANTED => SqlToken::Granted,
            Keyword::BY => SqlToken::By, _ => SqlToken::Word,
        },
        _ => SqlToken::Other,
    };
    Some(tokens.into_iter().map(kind).collect())
}

/// Can a token name somebody?
pub open spec fn names(t: SqlToken) -> bool {
    !(t == SqlToken::Space || t == SqlToken::Comma || t == SqlToken::Other)
}

/// The tokens without white space.
pub open spec fn solid(tokens: Seq<SqlToken>) -> Seq<SqlToken> {
    tokens.filter(|t: SqlToken| t != SqlToken::Space)
}

/// Do the first `n` tokens end in `TO` or `FROM` and a list of names?
pub open spec fn grantees_before(t: Seq<SqlToken>, n: int) -> bool
    decreases n,
{
    &&& 2 <= n <= t.len()
    &&& names(t[n - 1])
    &&& {
        ||| t[n - 2] == SqlToken::To || t[n - 2] == SqlToken::From
        ||| t[n - 2] == SqlToken::Comma && grantees_before(t, n - 2)
    }
}

/// Do the first `n` tokens end in such a list, perhaps with `WITH GRANT OPTION` behind it? A comma
/// may stand before that.
pub open spec fn grant_before(t: Seq<SqlToken>, n: int) -> bool {
    ||| grantees_before(t, n)
    ||| {
        &&& 3 <= n <= t.len()
        &&& t[n - 3] == SqlToken::With && t[n - 2] == SqlToken::Grant && t[n - 1] == SqlToken::Opt
        &&& {
            ||| grantees_before(t, n - 3)
            ||| 4 <= n && t[n - 4] == SqlToken::Comma && grantees_before(t, n - 4)
        }
    }
}

/// Does the grant before token `g` go on with `GRANTED BY`, and nobody is named behind it?
pub open spec fn dangling_at(t: Seq<SqlToken>, g: int) -> bool {
    &&& 0 <= g && g + 1 < t.len()
    &&& t[g] == SqlToken::Granted && t[g + 1] == SqlToken::By
    &&& grant_before(t, g)
    &&& g + 2 >= t.len() || !names(t[g + 2])
}

pub open spec fn dangling(t: Seq<SqlToken>) -> bool {
    exists|g: int| #[trigger] dangling_at(t, g)
}

/// Does a text grant something `GRANTED BY` nobody?
pub open spec fn dangling_grantor(sql: Seq<char>) -> bool {
    match sql_tokens(sql) {
        Some(tokens) => dangling(solid(tokens)),
        None => false,
    }
}

fn is_name(t: SqlToken) -> (r: bool)
    ensures
        r == names(t),
{
    !(t == SqlToken::Space || t == SqlToken::Comma || t == SqlToken::Other)
}

fn follows_grantees(t: &Vec<SqlToken>, n: usize) -> (r: bool)
    requires
        n <= t.len(),
    ensures
        r == grantees_before(t@, n as int),
{
    let mut k: usize = n;
    while k >= 2 && is_name(t[k - 1]) && t[k - 2] == SqlToken::Comma
        invariant
            k <= n <= t.len(),
            grantees_before(t@, k as int) == grantees_before(t@, n as int),
        decreases k,
    {
        k -= 2;
    }
    k >= 2 && is_name(t[k - 1]) && (t[k - 2] == SqlToken::To || t[k - 2] == SqlToken::From)
}

fn follows_grant(t: &Vec<SqlToken>, n: usize) -> (r: bool)
    requires
        n <= t.len(),
    ensures
        r == grant_before(t@, n as int),
{
    if follows_grantees(t, n) {
        return true;
    }
    if n < 3 || t[n - 3] != SqlToken::With || t[n - 2] != SqlToken::Grant || t[n - 1]
        != SqlToken::Opt {
        return false;
    }
    follows_grantees(t, n - 3) || (n >= 4 && t[n - 4] == SqlToken::Comma && follows_grantees(
        t,
        n - 4,
    ))
}

/// Does a text, as its tokens tell, grant something `GRANTED BY` nobody?
pub fn is_dangling(tokens: &Vec<SqlToken>) -> (r: bool)
    ensures
        r == dangling(solid(tokens@)),
{
    let ghost keep = |t: SqlToken| t != SqlToken::Space;
    let mut t: Vec<SqlToken> = Vec::new();
    let mut i: usize = 0;
    proof {
        crate::seqs::lemma_filter_none(tokens@, keep);
    }
    while i < tokens.len()
        invariant
            i <= tokens.len(),
            keep == (|t: SqlToken| t != SqlToken::Space),
            t@ == tokens@.take(i as int).filter(keep),
        decreases tokens.len() - i,
    {
        proof {
            crate::seqs::lemma_filter_take(tokens@, keep, i as int);
        }
        if tokens[i] != SqlToken::Space {
            t.push(tokens[i]);
        }
        i += 1;
    }
    proof {
        assert(tokens@.take(tokens@.len() as int) =~= tokens@);
    }
    let mut g: usize = 0;
    while g < t.len()
        invariant
            g <= t.len(),
            t@ == solid(tokens@),
            forall|k: int| 0 <= k < g ==> !#[trigger] dangling_at(t@, k),
        decreases t.len() - g,
    {
        if g + 1 < t.len() && t[g] == SqlToken::Granted && t[g + 1] == SqlToken::By
            && follows_grant(&t, g) && (g + 2 >= t.len() || !is_name(t[g + 2])) {
            proof {
                assert(dangling_at(t@, g as int));
            }
            return true;
        }
        g += 1;
    }
    false
}

/// Is this a text that the parser must not be given?
fn must_not_parse(sql: &str) -> (r: bool)
    ensures
        r == dangling_grantor(sql@),
{
    match read_tokens(sql) {
        Some(tokens) => is_dangling(&tokens),
        None => false,
    }
}

/// What is said of such a text.
pub open spec fn no_grantor() -> Seq<char> {
    "GRANTED BY names nobody"@
}

/// What `sqlparser::parser::Parser::parse_sql` makes of a text under the DuckDB dialect: the
/// statements, or the text of its error.
pub uninterp spec fn sql_statements(sql: Seq<char>) -> Result<Seq<Statement>, Seq<char>>;

/// The relations that a statement names, in the order in which they are visited, each as the
/// values of its identifiers.
pub uninterp spec fn relations(stmt: Statement) -> Seq<Seq<Seq<char>>>;

/// What `sqlparser::ast::visit_relations_mut` leaves of a statement whose relations are renamed,
/// one by one, where a new name is given.
pub uninterp spec fn renamed(stmt: Statement, names: Seq<Option<Seq<char>>>) -> Statement;

/// What the `Display` of a statement writes.
pub uninterp spec fn statement_text(stmt: Statement) -> Seq<char>;

/// `sqlparser::parser::Parser::parse_sql` under the DuckDB dialect. An error comes as its text. The
/// parser panics where a grant or a revocation says `GRANTED BY` and nobody is named behind it. What
/// a statement takes of the stack, however many operators it chains, is left unsaid.
#[verifier::external_body]
fn parse_sql(sql: &str) -> (r: Result<Vec<Statement>, String>)
    requires
        !dangling_grantor(sql@),
    ensures
        match r {
            Ok(stmts) => sql_statements(sql@) == Ok::<_, Seq<char>>(stmts@),
            Err(e) => sql_statements(sql@) == Err::<Seq<Statement>, _>(e@),
        },
{
    sqlparser::parser::Parser::parse_sql(&sqlparser::dialect::DuckDbDialect {}, sql)
        .map_err(|e| e.to_string())
}

pub open spec fn name_views(v: Seq<Vec<String>>) -> Seq<Seq<Seq<char>>> {
    v.map_values(|name: Vec<String>| views(name@))
}

/// `sqlparser::ast::visit_relations`: the values of the identifiers of each relation.
#[verifier::external_body]
fn relation_names(stmt: &Statement) -> (r: Vec<Vec<String>>)
    ensures
        name_views(r@) == relations(*stmt),
{
    let mut out: Vec<Vec<String>> = Vec::new();
    let _ = visit_relations(stmt, |name: &ObjectName| {
        out.push(name.0.iter().map(|ident| ident.value.clone()).collect());
        ControlFlow::<()>::Continue(())
    });
    out
}

pub open spec fn opt_views(v: Seq<Option<String>>) -> Seq<Option<Seq<char>>> {
    v.map_values(|o: Option<String>| text::opt_view(o))
}

/// The names after a renaming: a new name stands alone, and the others stay.
pub open spec fn new_names(old_names: Seq<Seq<Seq<char>>>, names: Seq<Option<Seq<char>>>) -> Seq<
    Seq<Seq<char>>,
> {
    Seq::new(
        old_names.len(),
        |i: int|
            match names[i] {
                Some(name) => seq![name],
                None => old_names[i],
            },
    )
}

/// `sqlparser::ast::visit_relations_mut`: the relations are visited in the same order, a mutated one
/// is not visited again, and nothing but names changes.
#[verifier::external_body]
fn rename_relations(stmt: Statement, names: &Vec<Option<String>>) -> (r: Statement)
    requires
        names@.len() == relations(stmt).len(),
    ensures
        r == renamed(stmt, opt_views(names@)),
        relations(r) == new_names(relations(stmt), opt_views(names@)),
{
    let mut stmt = stmt;
    let mut next = names.iter();
    let _ = visit_relations_mut(&mut stmt, |name: &mut ObjectName| {
        *name = next.next().cloned().flatten().map_or(name.clone(), |new| ObjectName(vec![Ident::new(new)]));
        ControlFlow::<()>::Continue(())
    });
    stmt
}

/// The `Display` of `sqlparser::ast::Statement`: the statement as SQL.
#[verifier::external_body]
fn write_statement(stmt: &Statement) -> (r: String)
    ensures
        r@ == statement_text(*stmt),
{
    stmt.to_string()
}

// ── Which tables a query reads ───────────────────────────────────────────────────────

/// The table that a relation names: its last identifier, in lower case.
pub open spec fn table_of(name: Seq<Seq<char>>) -> Seq<char> {
    if name.len() == 0 {
        seq![]
    } else {
        ascii_lowered(name.last())
    }
}

/// The tables of the first `n` relations, each once, added to `before`.
pub open spec fn with_tables(before: Seq<Seq<char>>, names: Seq<Seq<Seq<char>>>) -> Seq<Seq<char>>
    decreases names.len(),
{
    if names.len() == 0 {
        before
    } else {
        let tables = with_tables(before, names.drop_last());
        let name = names.last();
        if name.len() > 0 && !tables.contains(table_of(name)) {
            tables.push(table_of(name))
        } else {
            tables
        }
    }
}

pub open spec fn tables_of(stmts: Seq<Statement>) -> Seq<Seq<char>>
    decreases stmts.len(),
{
    if stmts.len() == 0 {
        seq![]
    } else {
        with_tables(tables_of(stmts.drop_last()), relations(stmts.last()))
    }
}

fn lower_table(name: &Vec<String>) -> (r: String)
    ensures
        r@ == table_of(views(name@)),
{
    if name.len() == 0 {
        let none = String::new();
        proof {
            assert(none@ =~= seq![]);
        }
        none
    } else {
        proof {
            assert(views(name@).last() == name@[name@.len() - 1]@);
        }
        let cs = text::chars(name[name.len() - 1].as_str());
        text::lower_ascii(&cs)
    }
}

/// Adds the tables that relations name, each once.
pub fn add_tables(tables: &mut Vec<String>, names: &Vec<Vec<String>>)
    ensures
        views(final(tables)@) == with_tables(views(old(tables)@), name_views(names@)),
{
    let ghost start = views(tables@);
    let ghost all = name_views(names@);
    let mut i: usize = 0;
    proof {
        assert(all.take(0) =~= seq![]);
    }
    while i < names.len()
        invariant
            i <= names.len(),
            all == name_views(names@),
            views(tables@) == with_tables(start, all.take(i as int)),
        decreases names.len() - i,
    {
        proof {
            assert(all.take(i + 1).drop_last() =~= all.take(i as int));
            assert(all.take(i + 1).last() == views(names@[i as int]@));
        }
        if names[i].len() > 0 {
            let t = lower_table(&names[i]);
            if !text::one_of(tables, t.as_str()) {
                let ghost before = tables@;
                tables.push(t);
                proof {
                    assert(views(tables@) =~= views(before).push(t@));
                }
            }
        }
        i += 1;
    }
    proof {
        assert(all.take(all.len() as int) =~= all);
    }
}

/// The tables that a query reads from, in lower case, each once. Used to find the store that owns
/// them. A text that does not parse is refused, and so is one that grants something `GRANTED BY`
/// nobody.
pub fn referenced_tables(sql: &str) -> (r: Result<Vec<String>, Error>)
    ensures
        if dangling_grantor(sql@) {
            r matches Err(e) && e@ == ErrorView::Query("SQL parse error: "@ + no_grantor())
        } else {
            match (r, sql_statements(sql@)) {
                (Ok(tables), Ok(stmts)) => views(tables@) == tables_of(stmts),
                (Err(e), Err(cause)) => e@ == ErrorView::Query("SQL parse error: "@ + cause),
                _ => false,
            }
        },
{
    if must_not_parse(sql) {
        return Err(Error::Query(text::cat("SQL parse error: ", "GRANTED BY names nobody")));
    }
    let stmts = match parse_sql(sql) {
        Ok(stmts) => stmts,
        Err(e) => {
            return Err(Error::Query(text::cat("SQL parse error: ", e.as_str())));
        },
    };
    let mut tables: Vec<String> = Vec::new();
    let mut i: usize = 0;
    proof {
        assert(views(tables@) =~= seq![]);
        assert(stmts@.take(0) =~= seq![]);
    }
    while i < stmts.len()
        invariant
            i <= stmts.len(),
            views(tables@) == tables_of(stmts@.take(i as int)),
        decreases stmts.len() - i,
    {
        proof {
            assert(stmts@.take(i + 1).drop_last() =~= stmts@.take(i as int));
            assert(stmts@.take(i + 1).last() == stmts@[i as int]);
        }
        let names = relation_names(&stmts[i]);
        add_tables(&mut tables, &names);
        i += 1;
    }
    proof {
        assert(stmts@.take(stmts@.len() as int) =~= stmts@);
    }
    Ok(tables)
}

// ── Confining a query to a tenant ────────────────────────────────────────────────────

/// A base table and the view of it that holds the rows of one tenant.
#[derive(Debug, Clone)]
pub struct ScopedTable {
    pub base: String,
    pub view: String,
}

pub open spec fn scope_views(v: Seq<ScopedTable>) -> Seq<(Seq<char>, Seq<char>)> {
    v.map_values(|t: ScopedTable| (t.base@, t.view@))
}

/// The view that stands for a table.
pub open spec fn view_of(scope: Seq<(Seq<char>, Seq<char>)>, table: Seq<char>) -> Option<Seq<char>>
    decreases scope.len(),
{
    if scope.len() == 0 {
        None
    } else if scope[0].0 == table {
        Some(scope[0].1)
    } else {
        view_of(scope.drop_first(), table)
    }
}

/// Is this the name of an internal view of one of the tables?
pub open spec fn internal(scope: Seq<(Seq<char>, Seq<char>)>, table: Seq<char>) -> bool {
    exists|i: int| 0 <= i < scope.len() && begins(table, (#[trigger] scope[i]).0 + "__t_"@)
}

/// Is one of the relations an internal view, addressed by its name?
pub open spec fn forbidden_among(
    scope: Seq<(Seq<char>, Seq<char>)>,
    names: Seq<Seq<Seq<char>>>,
) -> bool {
    exists|i: int|
        0 <= i < names.len() && view_of(scope, table_of(#[trigger] names[i])) is None && internal(
            scope,
            table_of(names[i]),
        )
}

/// Does a statement address an internal view by its name?
pub open spec fn forbidden(scope: Seq<(Seq<char>, Seq<char>)>, stmt: Statement) -> bool {
    forbidden_among(scope, relations(stmt))
}

/// The new names of a statement's relations.
pub open spec fn scoped_names(
    scope: Seq<(Seq<char>, Seq<char>)>,
    names: Seq<Seq<Seq<char>>>,
) -> Seq<Option<Seq<char>>> {
    names.map_values(|name: Seq<Seq<char>>| view_of(scope, table_of(name)))
}

/// A statement on the views of one tenant.
pub open spec fn scoped(scope: Seq<(Seq<char>, Seq<char>)>, stmt: Statement) -> Statement {
    renamed(stmt, scoped_names(scope, relations(stmt)))
}

pub open spec fn scoped_texts(
    scope: Seq<(Seq<char>, Seq<char>)>,
    stmts: Seq<Statement>,
) -> Seq<Seq<char>> {
    stmts.map_values(|s: Statement| statement_text(scoped(scope, s)))
}

/// What a query becomes for one tenant. What does not parse is refused, never run as it is.
pub open spec fn scoped_query(
    sql: Seq<char>,
    scope: Seq<(Seq<char>, Seq<char>)>,
) -> Result<Seq<char>, ErrorView> {
    if dangling_grantor(sql) {
        Err(ErrorView::Query("SQL parse error (tenant scope): "@ + no_grantor()))
    } else {
        match sql_statements(sql) {
            Err(e) => Err(ErrorView::Query("SQL parse error (tenant scope): "@ + e)),
            Ok(stmts) => if stmts.len() == 0 {
                Err(ErrorView::Query("empty SQL statement"@))
            } else if exists|i: int| 0 <= i < stmts.len() && forbidden(scope, #[trigger] stmts[i]) {
                Err(
                    ErrorView::Query("reference to an internal per-tenant view is not permitted"@),
                )
            } else {
                Ok(joined(scoped_texts(scope, stmts), "; "@))
            },
        }
    }
}

fn find_view(scope: &[ScopedTable], table: &str) -> (r: Option<String>)
    ensures
        text::opt_view(r) == view_of(scope_views(scope@), table@),
{
    let ghost all = scope_views(scope@);
    let mut i: usize = 0;
    proof {
        assert(all.skip(0) =~= all);
    }
    while i < scope.len()
        invariant
            i <= scope.len(),
            all == scope_views(scope@),
            view_of(all.skip(i as int), table@) == view_of(all, table@),
        decreases scope.len() - i,
    {
        proof {
            assert(all.skip(i as int)[0] == all[i as int]);
            assert(all.skip(i as int).drop_first() =~= all.skip(i + 1));
        }
        if text::same(scope[i].base.as_str(), table) {
            return Some(scope[i].view.clone());
        }
        i += 1;
    }
    None
}

fn is_internal(scope: &[ScopedTable], table: &str) -> (r: bool)
    ensures
        r == internal(scope_views(scope@), table@),
{
    let mut i: usize = 0;
    while i < scope.len()
        invariant
            i <= scope.len(),
            forall|k: int|
                0 <= k < i ==> !begins(
                    table@,
                    (#[trigger] scope_views(scope@)[k]).0 + "__t_"@,
                ),
        decreases scope.len() - i,
    {
        let prefix = text::cat(scope[i].base.as_str(), "__t_");
        if text::str_starts(table, prefix.as_str()) {
            proof {
                assert(begins(table@, scope_views(scope@)[i as int].0 + "__t_"@));
            }
            return true;
        }
        i += 1;
    }
    false
}

/// The new names of relations, or nothing where one of them is an internal view.
pub fn scope_names(scope: &[ScopedTable], names: &Vec<Vec<String>>) -> (r: Option<
    Vec<Option<String>>,
>)
    ensures
        match r {
            Some(new) => {
                &&& !forbidden_among(scope_views(scope@), name_views(names@))
                &&& opt_views(new@) == scoped_names(scope_views(scope@), name_views(names@))
            },
            None => forbidden_among(scope_views(scope@), name_views(names@)),
        },
{
    let ghost sc = scope_views(scope@);
    let ghost all = name_views(names@);
    let mut out: Vec<Option<String>> = Vec::new();
    let mut i: usize = 0;
    while i < names.len()
        invariant
            i <= names.len(),
            sc == scope_views(scope@),
            all == name_views(names@),
            out@.len() == i,
            forall|k: int|
                0 <= k < i ==> text::opt_view(#[trigger] out@[k]) == view_of(sc, table_of(all[k])),
            forall|k: int|
                0 <= k < i ==> view_of(sc, table_of(#[trigger] all[k])) is Some || !internal(
                    sc,
                    table_of(all[k]),
                ),
        decreases names.len() - i,
    {
        let table = lower_table(&names[i]);
        proof {
            assert(all[i as int] == views(names@[i as int]@));
        }
        let view = find_view(scope, table.as_str());
        if view.is_none() && is_internal(scope, table.as_str()) {
            proof {
                assert(view_of(sc, table_of(all[i as int])) is None);
            }
            return None;
        }
        out.push(view);
        i += 1;
    }
    proof {
        assert(opt_views(out@) =~= scoped_names(sc, all));
    }
    Some(out)
}

/// Rewrites a query so that it reads the views of one tenant in place of the base tables. A query
/// that does not parse, that is empty or that names an internal view is refused.
pub fn scope_tables(sql: &str, scope: &[ScopedTable]) -> (r: Result<String, Error>)
    ensures
        match (r, scoped_query(sql@, scope_views(scope@))) {
            (Ok(out), Ok(expected)) => out@ == expected,
            (Err(e), Err(expected)) => e@ == expected,
            _ => false,
        },
{
    if must_not_parse(sql) {
        return Err(
            Error::Query(text::cat("SQL parse error (tenant scope): ", "GRANTED BY names nobody")),
        );
    }
    let stmts = match parse_sql(sql) {
        Ok(stmts) => stmts,
        Err(e) => {
            return Err(Error::Query(text::cat("SQL parse error (tenant scope): ", e.as_str())));
        },
    };
    if stmts.len() == 0 {
        return Err(Error::Query("empty SQL statement".to_owned()));
    }
    let ghost sc = scope_views(scope@);
    let ghost all = stmts@;
    let n: usize = stmts.len();
    let mut rest = stmts;
    let mut texts: Vec<String> = Vec::new();
    let mut i: usize = 0;
    while i < n
        invariant
            i <= n,
            n == all.len(),
            n > 0,
            !dangling_grantor(sql@),
            sql_statements(sql@) == Ok::<_, Seq<char>>(all),
            sc == scope_views(scope@),
            rest@ == all.skip(i as int),
            texts@.len() == i,
            forall|k: int|
                0 <= k < i ==> (#[trigger] texts@[k])@ == statement_text(scoped(sc, all[k])),
            forall|k: int| 0 <= k < i ==> !forbidden(sc, #[trigger] all[k]),
        decreases n - i,
    {
        let stmt = rest.remove(0);
        proof {
            assert(stmt == all[i as int]);
            assert(rest@ =~= all.skip(i + 1));
        }
        let names = relation_names(&stmt);
        match scope_names(scope, &names) {
            Some(new) => {
                proof {
                    assert(names@.len() == relations(stmt).len());
                    assert(opt_views(new@).len() == relations(stmt).len());
                }
                let out = rename_relations(stmt, &new);
                texts.push(write_statement(&out));
            },
            None => {
                proof {
                    assert(forbidden(sc, all[i as int]));
                }
                return Err(
                    Error::Query(
                        "reference to an internal per-tenant view is not permitted".to_owned(),
                    ),
                );
            },
        }
        i += 1;
    }
    proof {
        assert(views(texts@) =~= scoped_texts(sc, all));
    }
    Ok(text::join(&texts, "; "))
}

// ── Laws ─────────────────────────────────────────────────────────────────────────────

proof fn lemma_view_of(scope: Seq<(Seq<char>, Seq<char>)>, table: Seq<char>)
    ensures
        match view_of(scope, table) {
            Some(view) => exists|k: int|
                0 <= k < scope.len() && #[trigger] scope[k] == (table, view),
            None => forall|k: int| 0 <= k < scope.len() ==> (#[trigger] scope[k]).0 != table,
        },
    decreases scope.len(),
{
    if scope.len() > 0 {
        let rest = scope.drop_first();
        lemma_view_of(rest, table);
        if scope[0].0 == table {
            assert(scope[0] == (table, view_of(scope, table)->0));
        } else if view_of(rest, table) is Some {
            let k = choose|k: int|
                0 <= k < rest.len() && #[trigger] rest[k] == (table, view_of(rest, table)->0);
            assert(scope[k + 1] == rest[k]);
        } else {
            assert forall|k: int| 0 <= k < scope.len() implies (#[trigger] scope[k]).0 != table by {
                if k > 0 {
                    assert(rest[k - 1] == scope[k]);
                }
            }
        }
    }
}

/// A statement that is let through names, after rewriting, the views that were given for the base
/// tables; no base table is left, and no other internal view. `names` are the relations of the
/// rewritten statement.
pub proof fn law_no_base_table_is_left(
    scope: Seq<(Seq<char>, Seq<char>)>,
    stmt: Statement,
    names: Seq<Seq<Seq<char>>>,
    i: int,
)
    requires
        !forbidden(scope, stmt),
        names == new_names(relations(stmt), scoped_names(scope, relations(stmt))),
        0 <= i < names.len(),
    ensures
        ({
            ||| exists|k: int| 0 <= k < scope.len() && names[i] == seq![(#[trigger] scope[k]).1]
            ||| {
                &&& names[i] == relations(stmt)[i]
                &&& forall|k: int|
                    0 <= k < scope.len() ==> (#[trigger] scope[k]).0 != table_of(names[i])
                &&& !internal(scope, table_of(names[i]))
            }
        }),
{
    let table = table_of(relations(stmt)[i]);
    lemma_view_of(scope, table);
    if view_of(scope, table) is Some {
        let k = choose|k: int|
            0 <= k < scope.len() && #[trigger] scope[k] == (table, view_of(scope, table)->0);
        assert(names[i] == seq![scope[k].1]);
    }
}

/// Does one of the statements name this table?
pub open spec fn named(stmts: Seq<Statement>, table: Seq<char>) -> bool {
    exists|i: int, j: int|
        0 <= i < stmts.len() && 0 <= j < relations(stmts[i]).len() && #[trigger] relations(
            stmts[i],
        )[j].len() > 0 && table_of(relations(stmts[i])[j]) == table
}

proof fn lemma_with_tables(before: Seq<Seq<char>>, names: Seq<Seq<Seq<char>>>, table: Seq<char>)
    ensures
        with_tables(before, names).contains(table) <==> before.contains(table) || exists|j: int|
            0 <= j < names.len() && (#[trigger] names[j]).len() > 0 && table_of(names[j]) == table,
    decreases names.len(),
{
    if names.len() > 0 {
        let rest = names.drop_last();
        let name = names.last();
        let n = names.len() - 1;
        assert(names[n] == name);
        lemma_with_tables(before, rest, table);
        let had = with_tables(before, rest);
        let has = with_tables(before, names);
        if had.contains(table) {
            let k = choose|k: int| 0 <= k < had.len() && had[k] == table;
            assert(has[k] == table);
        }
        if exists|j: int|
            0 <= j < rest.len() && (#[trigger] rest[j]).len() > 0 && table_of(rest[j]) == table {
            let j = choose|j: int|
                0 <= j < rest.len() && (#[trigger] rest[j]).len() > 0 && table_of(rest[j]) == table;
            assert(names[j] == rest[j]);
        }
        if name.len() > 0 && table_of(name) == table && !had.contains(table) {
            assert(has[had.len() as int] == table);
        }
        if has.contains(table) && !had.contains(table) {
            assert(name.len() > 0 && table_of(name) == table);
        }
        if exists|j: int|
            0 <= j < names.len() && (#[trigger] names[j]).len() > 0 && table_of(names[j])
                == table {
            let j = choose|j: int|
                0 <= j < names.len() && (#[trigger] names[j]).len() > 0 && table_of(names[j])
                    == table;
            if j < n {
                assert(rest[j] == names[j]);
            }
        }
    }
}

/// The tables of statements are those that one of them names.
pub proof fn lemma_tables_are_named(stmts: Seq<Statement>, table: Seq<char>)
    ensures
        tables_of(stmts).contains(table) <==> named(stmts, table),
    decreases stmts.len(),
{
    if stmts.len() > 0 {
        let rest = stmts.drop_last();
        let n = stmts.len() - 1;
        assert(stmts[n] == stmts.last());
        lemma_tables_are_named(rest, table);
        let names = relations(stmts.last());
        lemma_with_tables(tables_of(rest), names, table);
        if named(rest, table) {
            let (i, j) = choose|i: int, j: int|
                0 <= i < rest.len() && 0 <= j < relations(rest[i]).len() && #[trigger] relations(
                    rest[i],
                )[j].len() > 0 && table_of(relations(rest[i])[j]) == table;
            assert(relations(stmts[i])[j].len() > 0);
        }
        if exists|j: int|
            0 <= j < names.len() && (#[trigger] names[j]).len() > 0 && table_of(names[j])
                == table {
            let j = choose|j: int|
                0 <= j < names.len() && (#[trigger] names[j]).len() > 0 && table_of(names[j])
                    == table;
            assert(relations(stmts[n])[j].len() > 0);
        }
        if named(stmts, table) {
            let (i, j) = choose|i: int, j: int|
                0 <= i < stmts.len() && 0 <= j < relations(stmts[i]).len() && #[trigger] relations(
                    stmts[i],
                )[j].len() > 0 && table_of(relations(stmts[i])[j]) == table;
            if i < n {
                assert(relations(rest[i])[j].len() > 0);
            } else {
                assert(names[j].len() > 0);
            }
        }
    }
}

/// The views of a tenant: each is an internal one, and none is a base table.
pub open spec fn views_apart(scope: Seq<(Seq<char>, Seq<char>)>) -> bool {
    forall|k: int|
        0 <= k < scope.len() ==> internal(scope, ascii_lowered((#[trigger] scope[k]).1))
            && view_of(scope, ascii_lowered(scope[k].1)) is None
}

/// Is this a table that statements name once they are confined to a tenant?
pub open spec fn named_confined(
    scope: Seq<(Seq<char>, Seq<char>)>,
    stmts: Seq<Statement>,
    table: Seq<char>,
) -> bool {
    exists|old_table: Seq<char>| #[trigger]
        named(stmts, old_table) && table == match view_of(scope, old_table) {
            Some(view) => ascii_lowered(view),
            None => old_table,
        }
}

/// Do the statements that the parser reads back name the tables that it was given?
pub open spec fn reads_back(
    scope: Seq<(Seq<char>, Seq<char>)>,
    stmts: Seq<Statement>,
    again: Seq<Statement>,
) -> bool {
    forall|table: Seq<char>| #[trigger]
        named(again, table) <==> named_confined(scope, stmts, table)
}

/// The view of a base table is neither a base table nor anything but an internal view.
proof fn lemma_view_apart(scope: Seq<(Seq<char>, Seq<char>)>, table: Seq<char>)
    requires
        views_apart(scope),
        view_of(scope, table) is Some,
    ensures
        view_of(scope, ascii_lowered(view_of(scope, table)->0)) is None,
        internal(scope, ascii_lowered(view_of(scope, table)->0)),
{
    lemma_view_of(scope, table);
    let k = choose|k: int|
        0 <= k < scope.len() && #[trigger] scope[k] == (table, view_of(scope, table)->0);
    assert(scope[k].1 == view_of(scope, table)->0);
}

/// Statements that name an internal view are refused.
proof fn lemma_named_view_is_refused(
    scope: Seq<(Seq<char>, Seq<char>)>,
    sql: Seq<char>,
    stmts: Seq<Statement>,
    table: Seq<char>,
)
    requires
        sql_statements(sql) == Ok::<_, Seq<char>>(stmts),
        named(stmts, table),
        view_of(scope, table) is None,
        internal(scope, table),
    ensures
        scoped_query(sql, scope) is Err,
{
    let (i, j) = choose|i: int, j: int|
        0 <= i < stmts.len() && 0 <= j < relations(stmts[i]).len() && #[trigger] relations(
            stmts[i],
        )[j].len() > 0 && table_of(relations(stmts[i])[j]) == table;
    let list = relations(stmts[i]);
    assert(table_of(list[j]) == table);
    assert(forbidden_among(scope, list));
    assert(forbidden(scope, stmts[i]));
}

/// A query that was confined to a tenant, once its text is parsed again, names no base table; every
/// other table that it named is still named; and where it named a base table, confining it a second
/// time is refused. Left out are the queries whose text does not name, once it is parsed again, what
/// was written: the parser writes two minus signs in a row as the start of a comment.
pub proof fn law_confined_queries_stay_confined(
    sql: Seq<char>,
    scope: Seq<(Seq<char>, Seq<char>)>,
    stmts: Seq<Statement>,
    again: Seq<Statement>,
    table: Seq<char>,
)
    requires
        views_apart(scope),
        sql_statements(sql) == Ok::<_, Seq<char>>(stmts),
        scoped_query(sql, scope) is Ok,
        sql_statements(scoped_query(sql, scope)->Ok_0) == Ok::<_, Seq<char>>(again),
        reads_back(scope, stmts, again),
    ensures
        tables_of(again).contains(table) ==> view_of(scope, table) is None,
        tables_of(stmts).contains(table) && view_of(scope, table) is None ==> tables_of(
            again,
        ).contains(table),
        tables_of(stmts).contains(table) && view_of(scope, table) is Some ==> scoped_query(
            scoped_query(sql, scope)->Ok_0,
            scope,
        ) is Err,
{
    lemma_tables_are_named(stmts, table);
    lemma_tables_are_named(again, table);
    if named(again, table) {
        assert(named_confined(scope, stmts, table));
        let old_table = choose|old_table: Seq<char>| #[trigger]
            named(stmts, old_table) && table == match view_of(scope, old_table) {
                Some(view) => ascii_lowered(view),
                None => old_table,
            };
        if view_of(scope, old_table) is Some {
            lemma_view_apart(scope, old_table);
        }
    }
    if named(stmts, table) {
        if view_of(scope, table) is None {
            assert(named_confined(scope, stmts, table));
            assert(named(again, table));
        } else {
            let view = ascii_lowered(view_of(scope, table)->0);
            assert(named_confined(scope, stmts, view));
            assert(named(again, view));
            lemma_view_apart(scope, table);
            lemma_named_view_is_refused(scope, scoped_query(sql, scope)->Ok_0, again, view);
        }
    }
}

} // verus!
