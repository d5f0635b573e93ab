//! What a search finds: all that its arms name comes back, and nothing is named that was not found.

use vstd::prelude::*;

use crate::engine::search::{
    arms_of, fallback, hit_of, index_hits, linked, narrowed, started, with_linked, with_memories,
    with_vectors, with_word_scores, with_words, EdgeTermsView, SearchView, SearchWidths, Start,
};
use crate::memory::cognition::{HitView, MemoryState, MemoryView};
use crate::score::Score;
use crate::text::{listed, white};

verus! {

// ── How widely ───────────────────────────────────────────────────────────────────────

/// A search that asks for something looks wide enough for what it asks: at least as many candidates
/// from the words as hits are wanted, four times as many by vector, and a pool that a second look,
/// or the hits, can be taken from. One that asks for nothing gets at least one memory.
pub proof fn law_a_search_looks_wide_enough(query: Seq<char>, k: usize, widths: SearchWidths)
    requires
        k <= usize::MAX / 4,
    ensures
        ({
            let says_something = exists|i: int| 0 <= i < query.len() && !white(#[trigger] query[i]);
            match started(query, k, widths) {
                Start::Recent { limit } => {
                    &&& !says_something || k == 0
                    &&& limit >= 1 && limit >= k && (limit == 1 || limit == k)
                },
                Start::Ranked { scan_cap, fetch, pool } => {
                    &&& says_something && k > 0
                    &&& scan_cap >= k && scan_cap >= widths.scan_cap
                    &&& scan_cap == k || scan_cap == widths.scan_cap
                    &&& pool >= widths.pool
                    &&& widths.rerank_candidates is Some ==> pool >= widths.rerank_candidates->0 && (
                    pool == widths.pool || pool == widths.rerank_candidates->0)
                    &&& widths.rerank_candidates is None ==> pool >= k && (pool == widths.pool
                        || pool == k)
                    &&& fetch >= pool && fetch >= 4 * k && (fetch == pool || fetch == 4 * k)
                },
            }
        }),
{
}

// ── Along the graph ──────────────────────────────────────────────────────────────────

/// Does the query name an end of the edge: is one of its terms among those of the source, or among
/// those of the destination?
pub open spec fn touched(e: EdgeTermsView, terms: Seq<Seq<char>>) -> bool {
    exists|t: Seq<char>| #[trigger]
        terms.contains(t) && (e.src.contains(t) || e.dst.contains(t))
}

/// Naming one end of an edge surfaces the memory behind it, and nothing else does: an id is among
/// the links exactly where some edge that was read from it has a term of the query at either of its
/// ends. No id is there twice.
pub proof fn law_either_end_of_an_edge_leads_to_its_memory(
    edges: Seq<EdgeTermsView>,
    terms: Seq<Seq<char>>,
    id: u128,
)
    ensures
        linked(edges, terms).contains(id) <==> exists|i: int|
            0 <= i < edges.len() && (#[trigger] edges[i]).source_memory_id == Some(id) && touched(
                edges[i],
                terms,
            ),
        linked(edges, terms).no_duplicates(),
    decreases edges.len(),
{
    if edges.len() > 0 {
        let rest = edges.drop_last();
        let e = edges.last();
        law_either_end_of_an_edge_leads_to_its_memory(rest, terms, id);
        let before = linked(rest, terms);
        let after = linked(edges, terms);
        lemma_touched(e, terms);
        assert(edges[edges.len() - 1] == e);
        if after.contains(id) && !before.contains(id) {
            let k = choose|k: int| 0 <= k < after.len() && after[k] == id;
            assert(k == before.len() || before[k] == id);
        }
        if before.contains(id) {
            let k = choose|k: int| 0 <= k < before.len() && before[k] == id;
            assert(after[k] == id);
            let i = choose|i: int|
                0 <= i < rest.len() && (#[trigger] rest[i]).source_memory_id == Some(id)
                    && touched(rest[i], terms);
            assert(edges[i] == rest[i]);
        }
        if e.source_memory_id == Some(id) && touched(e, terms) && !before.contains(id) {
            assert(after[before.len() as int] == id);
        }
        assert forall|i: int|
            0 <= i < edges.len() && (#[trigger] edges[i]).source_memory_id == Some(id) && touched(
                edges[i],
                terms,
            ) implies after.contains(id) by {
            if i < rest.len() {
                assert(rest[i] == edges[i]);
            }
        }
        assert forall|i: int, j: int|
            0 <= i < after.len() && 0 <= j < after.len() && i != j implies after[i] != after[j] by {
            if i < before.len() {
                assert(before.contains(before[i]));
            }
            if j < before.len() {
                assert(before.contains(before[j]));
            }
        }
    }
}

proof fn lemma_touched(e: EdgeTermsView, terms: Seq<Seq<char>>)
    ensures
        touched(e, terms) <==> crate::engine::search::share_a_term(e.src, terms)
            || crate::engine::search::share_a_term(e.dst, terms),
{
    if touched(e, terms) {
        let t = choose|t: Seq<char>| #[trigger]
            terms.contains(t) && (e.src.contains(t) || e.dst.contains(t));
        let k = choose|k: int| 0 <= k < terms.len() && terms[k] == t;
        assert(listed(terms, t));
        if e.src.contains(t) {
            let i = choose|i: int| 0 <= i < e.src.len() && e.src[i] == t;
            assert(listed(terms, e.src[i]));
        } else {
            let i = choose|i: int| 0 <= i < e.dst.len() && e.dst[i] == t;
            assert(listed(terms, e.dst[i]));
        }
    }
    if crate::engine::search::share_a_term(e.src, terms) {
        let i = choose|i: int| 0 <= i < e.src.len() && listed(terms, #[trigger] e.src[i]);
        assert(terms.contains(e.src[i]) && e.src.contains(e.src[i]));
    }
    if crate::engine::search::share_a_term(e.dst, terms) {
        let i = choose|i: int| 0 <= i < e.dst.len() && listed(terms, #[trigger] e.dst[i]);
        assert(terms.contains(e.dst[i]) && e.dst.contains(e.dst[i]));
    }
}

/// The edges that come first have their memories first: later edges only add to the end.
pub proof fn law_links_come_in_the_order_of_the_edges(
    edges: Seq<EdgeTermsView>,
    terms: Seq<Seq<char>>,
    n: int,
)
    requires
        0 <= n <= edges.len(),
    ensures
        linked(edges.take(n), terms).is_prefix_of(linked(edges, terms)),
    decreases edges.len() - n,
{
    if n == edges.len() {
        assert(edges.take(n) =~= edges);
    } else {
        law_links_come_in_the_order_of_the_edges(edges, terms, n + 1);
        assert(edges.take(n + 1).drop_last() =~= edges.take(n));
    }
}

/// A memory that the graph leads to is taken where it is active, of the scope, and of the project
/// that the search names, if it names one; nothing else changes but that it is known then.
pub proof fn law_links_that_fit_are_taken(s: SearchView, id: u128, read: Option<MemoryView>)
    ensures
        ({
            let after = with_linked(s, id, read);
            let known = s.known.contains_key(id);
            let m = if known {
                s.known[id]
            } else {
                read->0
            };
            let fits = (known || read is Some) && m.state == MemoryState::Active && m.scope
                == s.scope && (s.project is None || m.project == s.project);
            &&& fits ==> after.by_graph == s.by_graph.push(id) && after.known == s.known.insert(
                id,
                m,
            )
            &&& !fits ==> after == s
            &&& after.by_words == s.by_words && after.word_scores == s.word_scores
            &&& after.by_vector == s.by_vector && after.vector_scores == s.vector_scores
        }),
{
    if s.known.contains_key(id) {
        assert(s.known.insert(id, s.known[id]) =~= s.known);
    }
}

// ── By words ─────────────────────────────────────────────────────────────────────────

/// The project that is asked for loses none of its memories, and none of another comes with them;
/// where none is asked for, all come.
pub proof fn law_a_project_keeps_its_own(
    ms: Seq<MemoryView>,
    project: Option<Seq<char>>,
    m: MemoryView,
)
    ensures
        narrowed(ms, project).contains(m) <==> ms.contains(m) && (project is None || m.project
            == project),
        project is None ==> narrowed(ms, project) == ms,
    decreases ms.len(),
{
    reveal(Seq::filter);
    if ms.len() == 0 {
        assert(narrowed(ms, project) =~= ms);
    } else {
        let rest = ms.drop_last();
        law_a_project_keeps_its_own(rest, project, m);
        let before = narrowed(rest, project);
        let after = narrowed(ms, project);
        assert(ms =~= rest.push(ms.last()));
        assert(ms.contains(m) <==> rest.contains(m) || m == ms.last()) by {
            if rest.contains(m) {
                let k = choose|k: int| 0 <= k < rest.len() && rest[k] == m;
                assert(ms[k] == m);
            }
            if m == ms.last() {
                assert(ms[ms.len() - 1] == m);
            }
        }
        if project is None || ms.last().project == project {
            assert(after == before.push(ms.last()));
            assert(after.contains(m) <==> before.contains(m) || m == ms.last()) by {
                if before.contains(m) {
                    let k = choose|k: int| 0 <= k < before.len() && before[k] == m;
                    assert(after[k] == m);
                }
                if m == ms.last() {
                    assert(after[before.len() as int] == m);
                }
            }
            assert(project is None ==> after =~= ms);
        }
    }
}

/// Every memory that the words rank is in their arm, at its rank, and its score goes with it; every
/// candidate can be drawn. What was there before stays.
pub proof fn law_words_lose_nothing(
    s: SearchView,
    ms: Seq<MemoryView>,
    ranked: Seq<(usize, Score)>,
    i: int,
)
    requires
        0 <= i < ranked.len(),
        forall|k: int| 0 <= k < ranked.len() ==> (#[trigger] ranked[k]).0 < ms.len(),
        forall|j: int, k: int|
            0 <= j < k < ms.len() ==> (#[trigger] ms[j]).id != (#[trigger] ms[k]).id,
        forall|j: int, k: int|
            0 <= j < k < ranked.len() ==> (#[trigger] ranked[j]).0 != (#[trigger] ranked[k]).0,
    ensures
        ({
            let after = with_words(s, ms, ranked);
            let m = ms[ranked[i].0 as int];
            let n = s.by_words.len();
            &&& after.by_words.len() == n + ranked.len()
            &&& after.by_words.take(n as int) == s.by_words
            &&& after.by_words[n + i] == m.id
            &&& after.word_scores.contains_key(m.id) && after.word_scores[m.id] == ranked[i].1
            &&& after.known.contains_key(m.id) && after.known[m.id] == m
            &&& after.by_vector == s.by_vector && after.vector_scores == s.vector_scores
            &&& after.by_graph == s.by_graph && after.scope == s.scope && after.project
                == s.project
        }),
{
    let after = with_words(s, ms, ranked);
    assert(after.by_words.take(s.by_words.len() as int) =~= s.by_words);
    lemma_word_scores(s.word_scores, ms, ranked, i);
    lemma_memories_are_known(s.known, ms, ranked[i].0 as int);
}

proof fn lemma_word_scores(
    scores: Map<u128, Score>,
    ms: Seq<MemoryView>,
    ranked: Seq<(usize, Score)>,
    i: int,
)
    requires
        0 <= i < ranked.len(),
        forall|k: int| 0 <= k < ranked.len() ==> (#[trigger] ranked[k]).0 < ms.len(),
        forall|j: int, k: int|
            0 <= j < k < ms.len() ==> (#[trigger] ms[j]).id != (#[trigger] ms[k]).id,
        forall|j: int, k: int|
            0 <= j < k < ranked.len() ==> (#[trigger] ranked[j]).0 != (#[trigger] ranked[k]).0,
    ensures
        with_word_scores(scores, ms, ranked).contains_key(ms[ranked[i].0 as int].id),
        with_word_scores(scores, ms, ranked)[ms[ranked[i].0 as int].id] == ranked[i].1,
    decreases ranked.len(),
{
    let n = ranked.len() - 1;
    if i < n {
        let rest = ranked.drop_last();
        assert(rest[i] == ranked[i]);
        assert forall|k: int| 0 <= k < rest.len() implies (#[trigger] rest[k]).0 < ms.len() by {
            assert(rest[k] == ranked[k]);
        }
        assert forall|j: int, k: int| 0 <= j < k < rest.len() implies (#[trigger] rest[j]).0 != (
        #[trigger] rest[k]).0 by {
            assert(ranked[j].0 != ranked[k].0);
        }
        lemma_word_scores(scores, ms, rest, i);
        assert(ranked[i].0 != ranked[n].0);
        let a = ranked[i].0 as int;
        let b = ranked[n].0 as int;
        if a < b {
            assert(ms[a].id != ms[b].id);
        } else {
            assert(ms[b].id != ms[a].id);
        }
    }
}

proof fn lemma_memories_are_known(known: Map<u128, MemoryView>, ms: Seq<MemoryView>, i: int)
    requires
        0 <= i < ms.len(),
        forall|j: int, k: int|
            0 <= j < k < ms.len() ==> (#[trigger] ms[j]).id != (#[trigger] ms[k]).id,
    ensures
        with_memories(known, ms).contains_key(ms[i].id),
        with_memories(known, ms)[ms[i].id] == ms[i],
    decreases ms.len(),
{
    let n = ms.len() - 1;
    if i < n {
        let rest = ms.drop_last();
        assert(rest[i] == ms[i]);
        assert forall|j: int, k: int| 0 <= j < k < rest.len() implies (#[trigger] rest[j]).id != (
        #[trigger] rest[k]).id by {
            assert(ms[j].id != ms[k].id);
        }
        lemma_memories_are_known(known, rest, i);
        assert(ms[i].id != ms[n].id);
    }
}

// ── By vector ────────────────────────────────────────────────────────────────────────

/// Every active memory that the vector index names comes back, as near as the index says, and in
/// its order; a memory that is gone or no longer active does not.
pub proof fn law_the_vector_index_loses_nothing(
    found: Seq<(Option<MemoryView>, Score)>,
    m: MemoryView,
    near: Score,
)
    requires
        m.state == MemoryState::Active,
    ensures
        index_hits(found).contains(
            (HitView { memory: m, score: near, similarity: Some(near), lexical: None }),
        ) <==> found.contains((Some(m), near)),
        forall|i: int|
            0 <= i < index_hits(found).len() ==> (#[trigger] index_hits(found)[i]).memory.state
                == MemoryState::Active,
    decreases found.len(),
{
    let h = HitView { memory: m, score: near, similarity: Some(near), lexical: None };
    if found.len() > 0 {
        let rest = found.drop_last();
        law_the_vector_index_loses_nothing(rest, m, near);
        let before = index_hits(rest);
        let after = index_hits(found);
        let e = (Some(m), near);
        assert(found.contains(e) <==> rest.contains(e) || e == found.last()) by {
            if rest.contains(e) {
                let k = choose|k: int| 0 <= k < rest.len() && rest[k] == e;
                assert(found[k] == e);
            }
            if e == found.last() {
                assert(found[found.len() - 1] == e);
            }
            if found.contains(e) && e != found.last() {
                let k = choose|k: int| 0 <= k < found.len() && found[k] == e;
                assert(rest[k] == e);
            }
        }
        if before.contains(h) {
            let k = choose|k: int| 0 <= k < before.len() && before[k] == h;
            assert(after[k] == h);
        }
        if e == found.last() {
            assert(after[before.len() as int] == h);
        }
        if after.contains(h) && !before.contains(h) {
            let k = choose|k: int| 0 <= k < after.len() && after[k] == h;
            assert(k == before.len() || before[k] == h);
        }
    }
}

/// What comes first in the vector index comes first among its hits.
pub proof fn law_vector_hits_keep_their_order(found: Seq<(Option<MemoryView>, Score)>, n: int)
    requires
        0 <= n <= found.len(),
    ensures
        index_hits(found.take(n)).is_prefix_of(index_hits(found)),
    decreases found.len() - n,
{
    if n == found.len() {
        assert(found.take(n) =~= found);
    } else {
        law_vector_hits_keep_their_order(found, n + 1);
        assert(found.take(n + 1).drop_last() =~= found.take(n));
    }
}

/// Every near memory of the project is in the arm of the vector, can be drawn, and carries how near
/// it is; the arm names nothing else. What is known already is not read anew.
pub proof fn law_vectors_lose_nothing(s: SearchView, hits: Seq<HitView>, id: u128)
    ensures
        ({
            let after = with_vectors(s, hits);
            let near = exists|i: int|
                0 <= i < hits.len() && (#[trigger] hits[i]).memory.id == id && (s.project is None
                    || hits[i].memory.project == s.project);
            &&& after.by_vector.contains(id) <==> s.by_vector.contains(id) || near
            &&& s.by_vector.is_prefix_of(after.by_vector)
            &&& near ==> after.known.contains_key(id)
            &&& s.known.contains_key(id) ==> after.known.contains_key(id) && after.known[id]
                == s.known[id]
            &&& after.by_words == s.by_words && after.word_scores == s.word_scores
            &&& after.by_graph == s.by_graph && after.scope == s.scope && after.project
                == s.project
        }),
        forall|i: int|
            0 <= i < hits.len() && (#[trigger] hits[i]).memory.id == id && (s.project is None
                || hits[i].memory.project == s.project) && hits[i].similarity is Some ==> (
            with_vectors(s, hits).vector_scores.contains_key(id)),
    decreases hits.len(),
{
    if hits.len() > 0 {
        let rest = hits.drop_last();
        law_vectors_lose_nothing(s, rest, id);
        let before = with_vectors(s, rest);
        let after = with_vectors(s, hits);
        let h = hits.last();
        assert(hits[hits.len() - 1] == h);
        assert forall|i: int| 0 <= i < rest.len() implies hits[i] == #[trigger] rest[i] by {}
        assert forall|i: int| 0 <= i < hits.len() - 1 implies rest[i] == #[trigger] hits[i] by {}
        if before.by_vector.contains(id) {
            let k = choose|k: int| 0 <= k < before.by_vector.len() && before.by_vector[k] == id;
            assert(after.by_vector[k] == id);
        }
        if h.memory.id == id && (s.project is None || h.memory.project == s.project) {
            assert(after.by_vector[before.by_vector.len() as int] == id);
        }
        if after.by_vector.contains(id) && !before.by_vector.contains(id) {
            let k = choose|k: int| 0 <= k < after.by_vector.len() && after.by_vector[k] == id;
            assert(k == before.by_vector.len() || before.by_vector[k] == id);
        }
    }
}

/// How near a memory is goes with it: of distinct memories, each carries the similarity that the
/// index gave it.
pub proof fn law_similarities_go_with_their_memories(s: SearchView, hits: Seq<HitView>, i: int)
    requires
        0 <= i < hits.len(),
        hits[i].similarity is Some,
        s.project is None || hits[i].memory.project == s.project,
        forall|j: int, k: int|
            0 <= j < k < hits.len() ==> (#[trigger] hits[j]).memory.id != (
            #[trigger] hits[k]).memory.id,
    ensures
        ({
            let after = with_vectors(s, hits);
            let id = hits[i].memory.id;
            &&& after.vector_scores.contains_key(id)
            &&& Some(after.vector_scores[id]) == hits[i].similarity
            &&& !s.known.contains_key(id) ==> after.known[id] == hits[i].memory
        }),
    decreases hits.len(),
{
    let n = hits.len() - 1;
    let rest = hits.drop_last();
    if i < n {
        assert(rest[i] == hits[i]);
        assert forall|j: int, k: int| 0 <= j < k < rest.len() implies (
        #[trigger] rest[j]).memory.id != (#[trigger] rest[k]).memory.id by {
            assert(hits[j].memory.id != hits[k].memory.id);
        }
        law_similarities_go_with_their_memories(s, rest, i);
        law_vectors_lose_nothing(s, rest, hits[i].memory.id);
        assert(hits[i].memory.id != hits[n].memory.id);
    } else {
        lemma_unseen_is_unknown(s, rest, hits[n].memory.id);
        law_vectors_lose_nothing(s, rest, hits[n].memory.id);
    }
}

proof fn lemma_unseen_is_unknown(s: SearchView, hits: Seq<HitView>, id: u128)
    requires
        forall|j: int| 0 <= j < hits.len() ==> (#[trigger] hits[j]).memory.id != id,
    ensures
        with_vectors(s, hits).known.contains_key(id) <==> s.known.contains_key(id),
    decreases hits.len(),
{
    if hits.len() > 0 {
        let rest = hits.drop_last();
        assert forall|j: int| 0 <= j < rest.len() implies (#[trigger] rest[j]).memory.id != id by {
            assert(hits[j].memory.id != id);
        }
        assert(hits[hits.len() - 1] == hits.last());
        lemma_unseen_is_unknown(s, rest, id);
    }
}

// ── What is fused, and what comes back ───────────────────────────────────────────────

/// Each way of retrieval that found anything is fused once, with its weight, and an empty one is
/// not: a list of the vector's has the weight of vectors, those of the words and of the graph that
/// of words.
pub proof fn law_each_arm_is_fused_with_its_weight(
    s: SearchView,
    vector_weight: Score,
    word_weight: Score,
)
    ensures
        ({
            let arms = arms_of(s, vector_weight, word_weight);
            let v: int = if s.by_vector.len() > 0 {
                1
            } else {
                0
            };
            let w: int = if s.by_words.len() > 0 {
                1
            } else {
                0
            };
            let g: int = if s.by_graph.len() > 0 {
                1
            } else {
                0
            };
            &&& arms.len() == v + w + g
            &&& v == 1 ==> arms[0] == (s.by_vector, vector_weight)
            &&& w == 1 ==> arms[v] == (s.by_words, word_weight)
            &&& g == 1 ==> arms[v + w] == (s.by_graph, word_weight)
        }),
{
}

/// Where nothing matched, every memory of the project that was read comes back, in its order, with
/// no score and no claim to have matched.
pub proof fn law_falling_back_loses_nothing(ms: Seq<MemoryView>, project: Option<Seq<char>>)
    ensures
        fallback(ms, project).len() == narrowed(ms, project).len(),
        forall|i: int|
            0 <= i < fallback(ms, project).len() ==> (#[trigger] fallback(ms, project)[i]) == (
            HitView {
                memory: narrowed(ms, project)[i],
                score: Score { bits: 0 },
                similarity: None,
                lexical: None,
            }),
{
}

/// A hit says how near its vector is exactly where the vector found it, and how well its words match
/// exactly where the words found it.
pub proof fn law_hits_say_how_they_were_found(s: SearchView, m: MemoryView, score: Score)
    ensures
        ({
            let h = hit_of(s, m, score);
            &&& h.memory == m && h.score == score
            &&& h.similarity is Some <==> s.vector_scores.contains_key(m.id)
            &&& h.similarity is Some ==> h.similarity->0 == s.vector_scores[m.id]
            &&& h.lexical is Some <==> s.word_scores.contains_key(m.id)
            &&& h.lexical is Some ==> h.lexical->0 == s.word_scores[m.id]
        }),
{
}

} // verus!
