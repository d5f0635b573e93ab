//! What a search text is searched by, and what a record of a search says.

use vstd::prelude::*;

use crate::json::{integer_of, lookup, JsonView};
use crate::memory::lexical::{
    match_expr, pieces, pieces_scan, term_char, term_of, terms_of,
};
use crate::memory::query_log::{added, opt_str_json, record_fields, QueryRecord};
use crate::text::{joined, lowered, replaced, trimmed_both, Class};

verus! {

// ── Terms ────────────────────────────────────────────────────────────────────────────

/// A term is made of letters and digits, and of the dashes, underscores and points that join them.
pub proof fn law_terms_are_letters_digits_and_joints(c: char)
    requires
        c <= '\u{7f}',
    ensures
        term_char(c) <==> 'a' <= c <= 'z' || 'A' <= c <= 'Z' || '0' <= c <= '9' || c == '-' || c == '_'
            || c == '.',
{
}

/// Texts one behind the other.
pub open spec fn run_together(parts: Seq<Seq<char>>) -> Seq<char>
    decreases parts.len(),
{
    if parts.len() == 0 {
        seq![]
    } else {
        run_together(parts.drop_last()) + parts.last()
    }
}

/// No character of a term is lost where a text is cut up: the pieces, one behind the other, are the
/// text without the characters that belong to no term.
pub proof fn law_no_character_of_a_term_is_lost(s: Seq<char>)
    ensures
        run_together(pieces(s)) == s.filter(|c: char| term_char(c)),
{
    lemma_pieces(s);
    let p = pieces_scan(s);
    assert(p.done.push(p.current).drop_last() =~= p.done);
}

proof fn lemma_pieces(s: Seq<char>)
    ensures
        run_together(pieces_scan(s).done) + pieces_scan(s).current == s.filter(
            |c: char| term_char(c),
        ),
    decreases s.len(),
{
    reveal(Seq::filter);
    let f = |c: char| term_char(c);
    if s.len() == 0 {
        assert(run_together(pieces_scan(s).done) + pieces_scan(s).current =~= s.filter(f));
    } else {
        let p = pieces_scan(s.drop_last());
        let q = pieces_scan(s);
        lemma_pieces(s.drop_last());
        if term_char(s.last()) {
            assert(run_together(q.done) + q.current =~= (run_together(p.done) + p.current).push(
                s.last(),
            ));
        } else {
            assert(p.done.push(p.current).drop_last() =~= p.done);
            assert(run_together(q.done) + q.current =~= run_together(p.done) + p.current);
        }
    }
}

/// A piece is cut where a character stands that belongs to no term, and only there: two terms with
/// such a character between them are two pieces.
pub proof fn law_other_characters_part_terms(s: Seq<char>, c: char, t: Seq<char>)
    requires
        !term_char(c),
        forall|i: int| 0 <= i < t.len() ==> term_char(#[trigger] t[i]),
    ensures
        pieces(s + seq![c] + t) == pieces(s).push(t),
        pieces(t) == seq![t],
    decreases t.len(),
{
    let all = s + seq![c] + t;
    if t.len() == 0 {
        assert(t =~= seq![]);
        assert(all.drop_last() =~= s);
        assert(all.last() == c);
        assert(pieces(all) =~= pieces(s).push(t));
        assert(pieces(t) =~= seq![t]);
    } else {
        let u = t.drop_last();
        assert forall|i: int| 0 <= i < u.len() implies term_char(#[trigger] u[i]) by {
            assert(t[i] == u[i]);
        }
        law_other_characters_part_terms(s, c, u);
        assert(all.drop_last() =~= s + seq![c] + u);
        assert(all.last() == t.last());
        assert(term_char(t[t.len() - 1]));
        let before = pieces_scan(all.drop_last());
        let ps = pieces(s);
        assert(before.done.push(before.current) == ps.push(u));
        assert(before.done =~= before.done.push(before.current).drop_last());
        assert(ps.push(u).drop_last() =~= ps);
        assert(before.done == ps);
        assert(before.current == before.done.push(before.current).last());
        assert(ps.push(u).last() == u);
        assert(before.current == u);
        assert(u.push(t.last()) =~= t);
        assert(pieces(all) =~= ps.push(t));
        let own = pieces_scan(u);
        assert(own.done.push(own.current) == seq![u]);
        assert(own.done =~= own.done.push(own.current).drop_last());
        assert(seq![u].drop_last() =~= seq![]);
        assert(own.current == own.done.push(own.current).last());
        assert(own.current == u);
        assert(pieces(t) =~= seq![t]);
    }
}

/// A piece is searched by exactly where something is left of it without the punctuation at its
/// edges, and that is no stop word: by what is left, in lower case.
pub proof fn law_terms_are_what_is_left_of_pieces(piece: Seq<char>, stop_words: Seq<Seq<char>>)
    ensures
        ({
            let t = trimmed_both(piece, Class::Edge);
            let stopped = stop_words.contains(lowered(t));
            &&& t.len() > 0 && !stopped ==> term_of(piece, stop_words) == Some(lowered(t))
            &&& t.len() == 0 || stopped ==> term_of(piece, stop_words) is None
        }),
{
}

/// Every piece that makes a term is searched by, and nothing else is.
pub proof fn law_every_term_is_searched(
    parts: Seq<Seq<char>>,
    stop_words: Seq<Seq<char>>,
    t: Seq<char>,
)
    ensures
        terms_of(parts, stop_words).contains(t) <==> exists|i: int|
            0 <= i < parts.len() && term_of(#[trigger] parts[i], stop_words) == Some(t),
        terms_of(parts, stop_words).contains(t) ==> !stop_words.contains(t),
    decreases parts.len(),
{
    if parts.len() > 0 {
        let rest = parts.drop_last();
        let last = parts.last();
        law_every_term_is_searched(rest, stop_words, t);
        let before = terms_of(rest, stop_words);
        let after = terms_of(parts, stop_words);
        assert(parts[parts.len() - 1] == last);
        if before.contains(t) {
            let k = choose|k: int| 0 <= k < before.len() && before[k] == t;
            assert(after[k] == t);
            let i = choose|i: int|
                0 <= i < rest.len() && term_of(#[trigger] rest[i], stop_words) == Some(t);
            assert(parts[i] == rest[i]);
        }
        if term_of(last, stop_words) == Some(t) {
            assert(after[before.len() as int] == t);
        }
        if after.contains(t) && !before.contains(t) {
            let k = choose|k: int| 0 <= k < after.len() && after[k] == t;
            assert(k == before.len() || before[k] == t);
        }
        assert forall|i: int|
            0 <= i < parts.len() && term_of(#[trigger] parts[i], stop_words) == Some(
                t,
            ) implies after.contains(t) by {
            if i < rest.len() {
                assert(rest[i] == parts[i]);
            }
        }
    }
}

/// A search asks for any of its terms, each as a phrase that is taken literally; one without terms
/// asks for nothing.
pub proof fn law_any_term_will_do(query: Seq<char>, stop_words: Seq<Seq<char>>)
    ensures
        ({
            let terms = terms_of(pieces(query), stop_words);
            &&& terms.len() == 0 ==> match_expr(query, stop_words) is None
            &&& terms.len() > 0 ==> match_expr(query, stop_words) == Some(
                joined(
                    terms.map_values(
                        |t: Seq<char>| "\""@ + replaced(t, "\""@, "\"\""@) + "\""@,
                    ),
                    " OR "@,
                ),
            )
        }),
{
    let terms = terms_of(pieces(query), stop_words);
    assert(crate::memory::lexical::phrases(terms) =~= terms.map_values(
        |t: Seq<char>| "\""@ + replaced(t, "\""@, "\"\""@) + "\""@,
    ));
}

// ── Records ──────────────────────────────────────────────────────────────────────────

proof fn lemma_added_field(
    fields: Seq<(Seq<char>, JsonView)>,
    key: Seq<char>,
    value: Option<JsonView>,
    other: Seq<char>,
)
    ensures
        lookup(added(fields, key, value), other) == if lookup(fields, other) is Some {
            lookup(fields, other)
        } else if key == other {
            value
        } else {
            None
        },
    decreases fields.len(),
{
    let all = added(fields, key, value);
    if value is Some {
        if fields.len() == 0 {
            assert(all.drop_first() =~= fields);
        } else {
            lemma_added_field(fields.drop_first(), key, value, other);
            assert(all.drop_first() =~= added(fields.drop_first(), key, value));
        }
    }
}

/// A record says how many were asked for and came back, whether anything matched, and whether the
/// search was answered: it was not where nothing matched or nothing came back. The question is in it
/// exactly where that is wanted, and whose search it was always is.
pub proof fn law_records_say_whether_a_search_was_answered(r: QueryRecord, include_query: bool)
    ensures
        ({
            let f = record_fields(r, include_query);
            &&& lookup(f, "k"@) == Some(integer_of(r.k as u64))
            &&& lookup(f, "results"@) == Some(integer_of(r.results as u64))
            &&& lookup(f, "matched"@) == Some(JsonView::Bool(r.matched))
            &&& lookup(f, "empty"@) == Some(JsonView::Bool(!r.matched || r.results == 0))
            &&& lookup(f, "duration_ms"@) == Some(r.duration_ms@)
            &&& include_query ==> lookup(f, "query"@) == opt_str_json(r.query)
            &&& lookup(f, "user_id"@) == opt_str_json(r.user_id)
            &&& lookup(f, "agent_id"@) == opt_str_json(r.agent_id)
            &&& lookup(f, "project"@) == opt_str_json(r.project)
            &&& lookup(f, "top_subject"@) == opt_str_json(r.top_subject)
            &&& lookup(f, "_tenant_id"@) == Some(JsonView::Str(r.tenant_id@))
        }),
{
    lemma_record_field(r, include_query, "k"@);
    lemma_record_field(r, include_query, "results"@);
    lemma_record_field(r, include_query, "matched"@);
    lemma_record_field(r, include_query, "empty"@);
    lemma_record_field(r, include_query, "duration_ms"@);
    lemma_record_field(r, include_query, "query"@);
    lemma_record_field(r, include_query, "user_id"@);
    lemma_record_field(r, include_query, "agent_id"@);
    lemma_record_field(r, include_query, "project"@);
    lemma_record_field(r, include_query, "top_subject"@);
    lemma_record_field(r, include_query, "_tenant_id"@);
    lemma_record_names();
}

proof fn lemma_record_names()
    ensures
        "k"@.len() == 1,
        "results"@.len() == 7 && "results"@[0] == 'r',
        "matched"@.len() == 7 && "matched"@[0] == 'm',
        "empty"@.len() == 5 && "empty"@[0] == 'e',
        "duration_ms"@.len() == 11 && "duration_ms"@[0] == 'd',
        "query"@.len() == 5 && "query"@[0] == 'q',
        "user_id"@.len() == 7 && "user_id"@[0] == 'u',
        "agent_id"@.len() == 8,
        "project"@.len() == 7 && "project"@[0] == 'p',
        "top_subject"@.len() == 11 && "top_subject"@[0] == 't',
        "top_similarity"@.len() == 14,
        "_tenant_id"@.len() == 10,
{
    reveal_strlit("k");
    reveal_strlit("results");
    reveal_strlit("matched");
    reveal_strlit("empty");
    reveal_strlit("duration_ms");
    reveal_strlit("query");
    reveal_strlit("user_id");
    reveal_strlit("agent_id");
    reveal_strlit("project");
    reveal_strlit("top_subject");
    reveal_strlit("top_similarity");
    reveal_strlit("_tenant_id");
}

/// What stands in a record under a name: the first that was put there.
proof fn lemma_record_field(r: QueryRecord, include_query: bool, key: Seq<char>)
    ensures
        lookup(record_fields(r, include_query), key) == if key == "k"@ {
            Some(integer_of(r.k as u64))
        } else if key == "results"@ {
            Some(integer_of(r.results as u64))
        } else if key == "matched"@ {
            Some(JsonView::Bool(r.matched))
        } else if key == "empty"@ {
            Some(JsonView::Bool(!r.matched || r.results == 0))
        } else if key == "duration_ms"@ {
            Some(r.duration_ms@)
        } else if key == "query"@ && include_query && r.query is Some {
            opt_str_json(r.query)
        } else if key == "user_id"@ && r.user_id is Some {
            opt_str_json(r.user_id)
        } else if key == "agent_id"@ && r.agent_id is Some {
            opt_str_json(r.agent_id)
        } else if key == "project"@ && r.project is Some {
            opt_str_json(r.project)
        } else if key == "top_subject"@ && r.top_subject is Some {
            opt_str_json(r.top_subject)
        } else if key == "top_similarity"@ && r.top_similarity is Some {
            crate::runtime::types::opt_json(r.top_similarity)
        } else if key == "_tenant_id"@ {
            Some(JsonView::Str(r.tenant_id@))
        } else {
            None
        },
{
    let base = seq![
        ("k"@, integer_of(r.k as u64)),
        ("results"@, integer_of(r.results as u64)),
        ("matched"@, JsonView::Bool(r.matched)),
        ("empty"@, JsonView::Bool(!r.matched || r.results == 0)),
        ("duration_ms"@, r.duration_ms@),
    ];
    reveal_with_fuel(lookup, 6);
    let b1 = base.drop_first();
    let b2 = b1.drop_first();
    let b3 = b2.drop_first();
    let b4 = b3.drop_first();
    assert(b1[0] == base[1] && b2[0] == base[2] && b3[0] == base[3] && b4[0] == base[4]);
    let q = if include_query {
        opt_str_json(r.query)
    } else {
        None
    };
    let f1 = added(base, "query"@, q);
    let f2 = added(f1, "user_id"@, opt_str_json(r.user_id));
    let f3 = added(f2, "agent_id"@, opt_str_json(r.agent_id));
    let f4 = added(f3, "project"@, opt_str_json(r.project));
    let f5 = added(f4, "top_subject"@, opt_str_json(r.top_subject));
    let sim = crate::runtime::types::opt_json(r.top_similarity);
    let f6 = added(f5, "top_similarity"@, sim);
    lemma_added_field(base, "query"@, q, key);
    lemma_added_field(f1, "user_id"@, opt_str_json(r.user_id), key);
    lemma_added_field(f2, "agent_id"@, opt_str_json(r.agent_id), key);
    lemma_added_field(f3, "project"@, opt_str_json(r.project), key);
    lemma_added_field(f4, "top_subject"@, opt_str_json(r.top_subject), key);
    lemma_added_field(f5, "top_similarity"@, sim, key);
    lemma_added_field(f6, "_tenant_id"@, Some(JsonView::Str(r.tenant_id@)), key);
}

} // verus!
