//! Hybrid search: by words, by vector, and along the graph.
//!
//! Each way of retrieval gives a list of memories, its arm. The lists are fused by rank, and the
//! fused list is ranked once more. Where no arm has anything, the most important memories come back
//! instead, and the search says that it did not match.

use std::collections::HashMap;

use vstd::prelude::*;

use crate::json::Json;
use crate::memory::cognition::{
    copy_ids, copy_opt, hit_views, memory_views, HitView, Memory, MemoryHit, MemoryScope,
    MemoryState, MemoryView, ScopeView,
};
use crate::memory::query_log::QueryRecord;
use crate::runtime::types::{tenant_of, tenant_or_default};
use crate::score::Score;
use crate::seqs::{lemma_filter_none, lemma_filter_take};
use crate::text;
use crate::text::{blank, listed, opt_view, views};

verus! {

broadcast use {vstd::string::group_string_axioms, vstd::std_specs::hash::group_hash_axioms};

/// How widely a search looks.
#[derive(Debug, Clone, Copy)]
pub struct SearchWidths {
    /// How many candidates an arm takes from the stores, at least.
    pub scan_cap: usize,
    /// How many fused candidates are kept, at least.
    pub pool: usize,
    /// How many candidates a second look is given, where there is one.
    pub rerank_candidates: Option<usize>,
}

/// How a search starts.
#[derive(Debug, Clone, Copy, PartialEq, Eq, Structural)]
pub enum Start {
    /// Nothing is asked: the most important memories, this many.
    Recent { limit: usize },
    /// So many candidates from the words, so many by vector, and so many fused.
    Ranked { scan_cap: usize, fetch: usize, pool: usize },
}

pub open spec fn larger_of(a: usize, b: usize) -> usize {
    if a >= b {
        a
    } else {
        b
    }
}

/// How a search for `k` memories starts.
pub open spec fn started(query: Seq<char>, k: usize, widths: SearchWidths) -> Start {
    if blank(query) || k == 0 {
        Start::Recent { limit: larger_of(k, 1) }
    } else {
        let pool = match widths.rerank_candidates {
            Some(c) => larger_of(c, widths.pool),
            None => larger_of(widths.pool, k),
        };
        Start::Ranked {
            scan_cap: larger_of(widths.scan_cap, k),
            fetch: larger_of(pool, (k * 4) as usize),
            pool,
        }
    }
}

fn max_of(a: usize, b: usize) -> (r: usize)
    ensures
        r == larger_of(a, b),
{
    if a >= b {
        a
    } else {
        b
    }
}

/// Decides how a search starts.
pub fn start(query: &str, k: usize, widths: &SearchWidths) -> (r: Start)
    requires
        k == 0 || text::blank(query@) || k <= usize::MAX / 4,
    ensures
        r == started(query@, k, *widths),
{
    if text::is_blank(&text::chars(query)) || k == 0 {
        return Start::Recent { limit: max_of(k, 1) };
    }
    let pool: usize = match widths.rerank_candidates {
        Some(c) => max_of(c, widths.pool),
        None => max_of(widths.pool, k),
    };
    Start::Ranked { scan_cap: max_of(widths.scan_cap, k), fetch: max_of(pool, k * 4), pool }
}

// ── Candidates ───────────────────────────────────────────────────────────────────────

/// Where the candidates of the words come from.
#[derive(Debug)]
pub enum Candidates {
    /// The memories that the index named.
    Named(Vec<u128>),
    /// There are none.
    Nothing,
    /// The index is out of order: a scan of the scope stands in for it.
    Scan,
}

/// Reads the reply of the lexical index. It only proposes: what it names is read again from the
/// store.
pub fn candidates(reply: Option<Vec<u128>>) -> (r: Candidates)
    ensures
        match (r, reply) {
            (Candidates::Named(ids), Some(found)) => ids@ == found@ && found@.len() > 0,
            (Candidates::Nothing, Some(found)) => found@.len() == 0,
            (Candidates::Scan, None) => true,
            _ => false,
        },
{
    match reply {
        Some(ids) => if ids.len() > 0 {
            Candidates::Named(ids)
        } else {
            Candidates::Nothing
        },
        None => Candidates::Scan,
    }
}

/// Does a memory belong to the project that is asked for? Where none is, every memory does.
pub open spec fn of_project(m: MemoryView, project: Option<Seq<char>>) -> bool {
    project is None || m.project == project
}

pub open spec fn narrowed(ms: Seq<MemoryView>, project: Option<Seq<char>>) -> Seq<MemoryView> {
    ms.filter(|m: MemoryView| of_project(m, project))
}

fn is_of_project(m: &Memory, project: &Option<String>) -> (r: bool)
    ensures
        r == of_project(m@, opt_view(*project)),
{
    match (project, &m.project) {
        (None, _) => true,
        (Some(p), Some(q)) => text::same(p.as_str(), q.as_str()),
        (Some(_), None) => false,
    }
}

/// The memories of a project.
pub fn narrow(ms: &Vec<Memory>, project: &Option<String>) -> (r: Vec<Memory>)
    ensures
        memory_views(r@) == narrowed(memory_views(ms@), opt_view(*project)),
{
    let ghost all = memory_views(ms@);
    let ghost p = |m: MemoryView| of_project(m, opt_view(*project));
    let mut out: Vec<Memory> = Vec::new();
    let mut i: usize = 0;
    proof {
        lemma_filter_none(all, p);
        assert(memory_views(out@) =~= all.take(0).filter(p));
    }
    while i < ms.len()
        invariant
            i <= ms.len(),
            all == memory_views(ms@),
            p == |m: MemoryView| of_project(m, opt_view(*project)),
            memory_views(out@) == all.take(i as int).filter(p),
        decreases ms.len() - i,
    {
        let ghost before = out@;
        proof {
            lemma_filter_take(all, p, i as int);
            assert(all[i as int] == ms@[i as int]@);
        }
        if is_of_project(&ms[i], project) {
            out.push(ms[i].copy());
            proof {
                assert(memory_views(out@) =~= memory_views(before).push(all[i as int]));
            }
        }
        i += 1;
    }
    proof {
        assert(all.take(all.len() as int) =~= all);
    }
    out
}

/// A memory that comes back without having matched.
pub open spec fn unmatched(m: MemoryView) -> HitView {
    HitView { memory: m, score: Score { bits: 0 }, similarity: None, lexical: None }
}

pub open spec fn fallback(ms: Seq<MemoryView>, project: Option<Seq<char>>) -> Seq<HitView> {
    narrowed(ms, project).map_values(|m: MemoryView| unmatched(m))
}

/// The hits of a search that asked for nothing, or that nothing matched: the most important memories
/// of the project.
pub fn fall_back(ms: &Vec<Memory>, project: &Option<String>) -> (r: Vec<MemoryHit>)
    ensures
        hit_views(r@) == fallback(memory_views(ms@), opt_view(*project)),
{
    let kept = narrow(ms, project);
    let ghost all = memory_views(kept@).map_values(|m: MemoryView| unmatched(m));
    let mut out: Vec<MemoryHit> = Vec::new();
    let mut i: usize = 0;
    proof {
        assert(hit_views(out@) =~= all.take(0));
    }
    while i < kept.len()
        invariant
            i <= kept.len(),
            all == memory_views(kept@).map_values(|m: MemoryView| unmatched(m)),
            hit_views(out@) == all.take(i as int),
        decreases kept.len() - i,
    {
        let ghost before = out@;
        out.push(
            MemoryHit {
                memory: kept[i].copy(),
                score: Score::zero(),
                similarity: None,
                lexical: None,
            },
        );
        i += 1;
        proof {
            assert(all[i - 1] == unmatched(kept@[i - 1]@));
            assert(hit_views(out@) =~= hit_views(before).push(all[i - 1]));
            assert(all.take(i as int) =~= all.take(i - 1).push(all[i - 1]));
        }
    }
    proof {
        assert(all.take(all.len() as int) =~= all);
    }
    out
}

// ── The arms ─────────────────────────────────────────────────────────────────────────

/// What a search has gathered.
pub struct Search {
    scope: MemoryScope,
    project: Option<String>,
    known: HashMap<u128, Memory>,
    by_words: Vec<u128>,
    word_scores: HashMap<u128, Score>,
    by_vector: Vec<u128>,
    vector_scores: HashMap<u128, Score>,
    by_graph: Vec<u128>,
}

pub struct SearchView {
    pub scope: ScopeView,
    pub project: Option<Seq<char>>,
    /// The memories that were read.
    pub known: Map<u128, MemoryView>,
    /// What the words found, best first, and how well.
    pub by_words: Seq<u128>,
    pub word_scores: Map<u128, Score>,
    /// What the vector found, nearest first, and how near.
    pub by_vector: Seq<u128>,
    pub vector_scores: Map<u128, Score>,
    /// What the graph leads to.
    pub by_graph: Seq<u128>,
}

pub open spec fn known_views(m: Map<u128, Memory>) -> Map<u128, MemoryView> {
    m.map_values(|m: Memory| m@)
}

impl View for Search {
    type V = SearchView;

    closed spec fn view(&self) -> SearchView {
        SearchView {
            scope: self.scope@,
            project: opt_view(self.project),
            known: known_views(self.known@),
            by_words: self.by_words@,
            word_scores: self.word_scores@,
            by_vector: self.by_vector@,
            vector_scores: self.vector_scores@,
            by_graph: self.by_graph@,
        }
    }
}

/// A search that has gathered nothing.
pub open spec fn fresh_search(scope: ScopeView, project: Option<Seq<char>>) -> SearchView {
    SearchView {
        scope,
        project,
        known: Map::empty(),
        by_words: seq![],
        word_scores: Map::empty(),
        by_vector: seq![],
        vector_scores: Map::empty(),
        by_graph: seq![],
    }
}

pub open spec fn with_memories(known: Map<u128, MemoryView>, ms: Seq<MemoryView>) -> Map<
    u128,
    MemoryView,
>
    decreases ms.len(),
{
    if ms.len() == 0 {
        known
    } else {
        with_memories(known, ms.drop_last()).insert(ms.last().id, ms.last())
    }
}

pub open spec fn with_word_scores(
    scores: Map<u128, Score>,
    ms: Seq<MemoryView>,
    ranked: Seq<(usize, Score)>,
) -> Map<u128, Score>
    decreases ranked.len(),
{
    if ranked.len() == 0 {
        scores
    } else {
        with_word_scores(scores, ms, ranked.drop_last()).insert(
            ms[ranked.last().0 as int].id,
            ranked.last().1,
        )
    }
}

/// The search with what the words found: the candidates, and the ranking of them by their index.
pub open spec fn with_words(
    s: SearchView,
    ms: Seq<MemoryView>,
    ranked: Seq<(usize, Score)>,
) -> SearchView {
    SearchView {
        known: with_memories(s.known, ms),
        by_words: s.by_words + ranked.map_values(|r: (usize, Score)| ms[r.0 as int].id),
        word_scores: with_word_scores(s.word_scores, ms, ranked),
        ..s
    }
}

/// The memory is known, unless it was before.
pub open spec fn or_known(known: Map<u128, MemoryView>, m: MemoryView) -> Map<u128, MemoryView> {
    if known.contains_key(m.id) {
        known
    } else {
        known.insert(m.id, m)
    }
}

/// The search with what the vector found: those of the project.
pub open spec fn with_vectors(s: SearchView, hits: Seq<HitView>) -> SearchView
    decreases hits.len(),
{
    if hits.len() == 0 {
        s
    } else {
        let before = with_vectors(s, hits.drop_last());
        let h = hits.last();
        if of_project(h.memory, s.project) {
            SearchView {
                by_vector: before.by_vector.push(h.memory.id),
                vector_scores: match h.similarity {
                    Some(sim) => before.vector_scores.insert(h.memory.id, sim),
                    None => before.vector_scores,
                },
                known: or_known(before.known, h.memory),
                ..before
            }
        } else {
            before
        }
    }
}

/// The search with a memory that the graph leads to. `read` is what the store has under the id,
/// where the memory was not known. Only an active memory of this very scope and project is taken.
pub open spec fn with_linked(s: SearchView, id: u128, read: Option<MemoryView>) -> SearchView {
    let found = if s.known.contains_key(id) {
        Some(s.known[id])
    } else {
        read
    };
    match found {
        Some(m) if m.state == MemoryState::Active && m.scope == s.scope && of_project(
            m,
            s.project,
        ) => SearchView {
            known: if s.known.contains_key(id) {
                s.known
            } else {
                s.known.insert(id, m)
            },
            by_graph: s.by_graph.push(id),
            ..s
        },
        _ => s,
    }
}

/// A list of memories, best first, and the weight of the list.
pub struct Arm {
    pub ids: Vec<u128>,
    pub weight: Score,
}

pub open spec fn arm_views(v: Seq<Arm>) -> Seq<(Seq<u128>, Score)> {
    v.map_values(|a: Arm| (a.ids@, a.weight))
}

pub open spec fn with_arm(arms: Seq<(Seq<u128>, Score)>, ids: Seq<u128>, weight: Score) -> Seq<
    (Seq<u128>, Score),
> {
    if ids.len() > 0 {
        arms.push((ids, weight))
    } else {
        arms
    }
}

/// The lists to fuse: those that have anything. The graph is read by words too, and has their
/// weight.
pub open spec fn arms_of(s: SearchView, vector_weight: Score, word_weight: Score) -> Seq<
    (Seq<u128>, Score),
> {
    with_arm(
        with_arm(with_arm(seq![], s.by_vector, vector_weight), s.by_words, word_weight),
        s.by_graph,
        word_weight,
    )
}

fn put_arm(arms: &mut Vec<Arm>, ids: &Vec<u128>, weight: Score)
    ensures
        arm_views(final(arms)@) == with_arm(arm_views(old(arms)@), ids@, weight),
{
    let ghost before = arms@;
    if ids.len() > 0 {
        arms.push(Arm { ids: copy_ids(ids), weight });
        proof {
            assert(arm_views(arms@) =~= arm_views(before).push((ids@, weight)));
        }
    }
}

proof fn lemma_known_insert(m: Map<u128, Memory>, id: u128, v: Memory)
    ensures
        known_views(m.insert(id, v)) == known_views(m).insert(id, v@),
{
    assert(known_views(m.insert(id, v)) =~= known_views(m).insert(id, v@));
}

impl Search {
    /// A search in a scope, and in one project of it where one is named.
    pub fn new(scope: &MemoryScope, project: &Option<String>) -> (r: Search)
        ensures
            r@ == fresh_search(scope@, opt_view(*project)),
    {
        let known: HashMap<u128, Memory> = HashMap::new();
        proof {
            assert(known_views(known@) =~= Map::empty());
        }
        Search {
            scope: scope.copy(),
            project: copy_opt(project),
            known,
            by_words: Vec::new(),
            word_scores: HashMap::new(),
            by_vector: Vec::new(),
            vector_scores: HashMap::new(),
            by_graph: Vec::new(),
        }
    }

    /// Takes what the words found. `ranked` holds indices into the candidates, best first.
    pub fn take_words(self, ms: Vec<Memory>, ranked: &Vec<(usize, Score)>) -> (r: Search)
        requires
            forall|i: int| 0 <= i < ranked@.len() ==> (#[trigger] ranked@[i]).0 < ms@.len(),
        ensures
            r@ == with_words(self@, memory_views(ms@), ranked@),
    {
        let ghost start = self@;
        let ghost all = memory_views(ms@);
        let ghost f = |r: (usize, Score)| all[r.0 as int].id;
        let mut by_words = self.by_words;
        let mut word_scores = self.word_scores;
        let mut known = self.known;
        let mut i: usize = 0;
        proof {
            assert(ranked@.take(0) =~= seq![]);
            assert(by_words@ =~= start.by_words + ranked@.take(0).map_values(f));
        }
        while i < ranked.len()
            invariant
                i <= ranked.len(),
                forall|i: int| 0 <= i < ranked@.len() ==> (#[trigger] ranked@[i]).0 < ms@.len(),
                all == memory_views(ms@),
                f == |r: (usize, Score)| all[r.0 as int].id,
                by_words@ == start.by_words + ranked@.take(i as int).map_values(f),
                word_scores@ == with_word_scores(start.word_scores, all, ranked@.take(i as int)),
            decreases ranked.len() - i,
        {
            let ghost before = by_words@;
            let (at, score) = ranked[i];
            let id: u128 = ms[at].id;
            proof {
                assert(ranked@.take(i + 1).drop_last() =~= ranked@.take(i as int));
                assert(ranked@.take(i + 1).last() == ranked@[i as int]);
                assert(all[at as int] == ms@[at as int]@);
            }
            word_scores.insert(id, score);
            by_words.push(id);
            proof {
                assert(ranked@.take(i + 1) =~= ranked@.take(i as int).push(ranked@[i as int]));
                assert(ranked@.take(i + 1).map_values(f) =~= ranked@.take(i as int).map_values(
                    f,
                ).push(id));
                assert(by_words@ =~= start.by_words + ranked@.take(i + 1).map_values(f));
            }
            i += 1;
        }
        let mut j: usize = 0;
        proof {
            assert(ranked@.take(ranked@.len() as int) =~= ranked@);
            assert(all.take(0) =~= seq![]);
        }
        while j < ms.len()
            invariant
                j <= ms.len(),
                all == memory_views(ms@),
                known_views(known@) == with_memories(start.known, all.take(j as int)),
            decreases ms.len() - j,
        {
            proof {
                assert(all.take(j + 1).drop_last() =~= all.take(j as int));
                assert(all.take(j + 1).last() == ms@[j as int]@);
            }
            let m = ms[j].copy();
            let ghost before = known@;
            let id: u128 = m.id;
            proof {
                lemma_known_insert(before, id, m);
            }
            known.insert(id, m);
            j += 1;
        }
        proof {
            assert(all.take(all.len() as int) =~= all);
        }
        Search { by_words, word_scores, known, ..self }
    }

    /// Takes what the vector found.
    pub fn take_vectors(self, hits: &Vec<MemoryHit>) -> (r: Search)
        ensures
            r@ == with_vectors(self@, hit_views(hits@)),
    {
        let ghost start = self@;
        let ghost all = hit_views(hits@);
        let mut s = self;
        let mut i: usize = 0;
        proof {
            assert(all.take(0) =~= seq![]);
        }
        while i < hits.len()
            invariant
                i <= hits.len(),
                all == hit_views(hits@),
                s@ == with_vectors(start, all.take(i as int)),
                s@.project == start.project,
            decreases hits.len() - i,
        {
            proof {
                assert(all.take(i + 1).drop_last() =~= all.take(i as int));
                assert(all.take(i + 1).last() == hits@[i as int]@);
            }
            let h = &hits[i];
            if is_of_project(&h.memory, &s.project) {
                s.by_vector.push(h.memory.id);
                if let Some(sim) = h.similarity {
                    s.vector_scores.insert(h.memory.id, sim);
                }
                if !s.known.contains_key(&h.memory.id) {
                    let m = h.memory.copy();
                    proof {
                        lemma_known_insert(s.known@, h.memory.id, m);
                    }
                    s.known.insert(h.memory.id, m);
                }
            }
            i += 1;
        }
        proof {
            assert(all.take(all.len() as int) =~= all);
        }
        s
    }

    /// Is a memory known already?
    pub fn knows(&self, id: u128) -> (r: bool)
        ensures
            r == self@.known.contains_key(id),
    {
        self.known.contains_key(&id)
    }

    /// Takes a memory that the graph leads to.
    pub fn take_linked(self, id: u128, read: Option<Memory>) -> (r: Search)
        ensures
            r@ == with_linked(
                self@,
                id,
                match read {
                    Some(m) => Some(m@),
                    None => None,
                },
            ),
    {
        let mut s = self;
        let fits = match s.known.get(&id) {
            Some(m) => Some(
                is_active(m) && m.scope.equal(&s.scope) && is_of_project(m, &s.project),
            ),
            None => None,
        };
        match fits {
            Some(true) => {
                s.by_graph.push(id);
            },
            Some(false) => {},
            None => {
                if let Some(m) = read {
                    if is_active(&m) && m.scope.equal(&s.scope) && is_of_project(&m, &s.project) {
                        proof {
                            lemma_known_insert(s.known@, id, m);
                        }
                        s.known.insert(id, m);
                        s.by_graph.push(id);
                    }
                }
            },
        }
        s
    }

    /// The lists to fuse. There are none where nothing matched.
    pub fn arms(&self, vector_weight: Score, word_weight: Score) -> (r: Vec<Arm>)
        ensures
            arm_views(r@) == arms_of(self@, vector_weight, word_weight),
    {
        let mut arms: Vec<Arm> = Vec::new();
        proof {
            assert(arm_views(arms@) =~= seq![]);
        }
        put_arm(&mut arms, &self.by_vector, vector_weight);
        put_arm(&mut arms, &self.by_words, word_weight);
        put_arm(&mut arms, &self.by_graph, word_weight);
        arms
    }

    /// Takes a memory out of those that are known.
    pub fn draw(self, id: u128) -> (r: (Search, Option<Memory>))
        ensures
            r.0@ == (SearchView { known: self@.known.remove(id), ..self@ }),
            match r.1 {
                Some(m) => self@.known.contains_key(id) && m@ == self@.known[id],
                None => !self@.known.contains_key(id),
            },
    {
        let ghost start = self@;
        let mut known = self.known;
        let ghost before = known@;
        let found = known.remove(&id);
        proof {
            assert(known_views(known@) =~= known_views(before).remove(id));
        }
        (Search { known, ..self }, found)
    }

    /// The hit of a memory with its fused score: how near its vector is, and how well its words
    /// match, where that was found.
    pub fn hit(&self, memory: Memory, score: Score) -> (r: MemoryHit)
        ensures
            r@ == hit_of(self@, memory@, score),
    {
        let similarity = match self.vector_scores.get(&memory.id) {
            Some(s) => Some(*s),
            None => None,
        };
        let lexical = match self.word_scores.get(&memory.id) {
            Some(s) => Some(*s),
            None => None,
        };
        MemoryHit { memory, score, similarity, lexical }
    }
}

pub open spec fn hit_of(s: SearchView, m: MemoryView, score: Score) -> HitView {
    HitView {
        memory: m,
        score,
        similarity: if s.vector_scores.contains_key(m.id) {
            Some(s.vector_scores[m.id])
        } else {
            None
        },
        lexical: if s.word_scores.contains_key(m.id) {
            Some(s.word_scores[m.id])
        } else {
            None
        },
    }
}

fn is_active(m: &Memory) -> (r: bool)
    ensures
        r == (m.state == MemoryState::Active),
{
    match m.state {
        MemoryState::Active => true,
        _ => false,
    }
}

// ── The graph ────────────────────────────────────────────────────────────────────────

/// An edge by its terms: the memory that it was read from, and the terms of its ends.
#[derive(Debug)]
pub struct EdgeTerms {
    pub source_memory_id: Option<u128>,
    pub src: Vec<String>,
    pub dst: Vec<String>,
}

pub struct EdgeTermsView {
    pub source_memory_id: Option<u128>,
    pub src: Seq<Seq<char>>,
    pub dst: Seq<Seq<char>>,
}

impl View for EdgeTerms {
    type V = EdgeTermsView;

    open spec fn view(&self) -> EdgeTermsView {
        EdgeTermsView {
            source_memory_id: self.source_memory_id,
            src: views(self.src@),
            dst: views(self.dst@),
        }
    }
}

pub open spec fn edge_terms_views(v: Seq<EdgeTerms>) -> Seq<EdgeTermsView> {
    v.map_values(|e: EdgeTerms| e@)
}

/// Have two lists of terms one in common?
pub open spec fn share_a_term(a: Seq<Seq<char>>, b: Seq<Seq<char>>) -> bool {
    exists|i: int| 0 <= i < a.len() && listed(b, #[trigger] a[i])
}

/// The memories that the edges lead to whose ends the query speaks of, each once, in the order of
/// the edges.
pub open spec fn linked(edges: Seq<EdgeTermsView>, terms: Seq<Seq<char>>) -> Seq<u128>
    decreases edges.len(),
{
    if edges.len() == 0 {
        seq![]
    } else {
        let before = linked(edges.drop_last(), terms);
        let e = edges.last();
        match e.source_memory_id {
            Some(id) if (share_a_term(e.src, terms) || share_a_term(e.dst, terms))
                && !before.contains(id) => before.push(id),
            _ => before,
        }
    }
}

fn any_term(a: &Vec<String>, b: &Vec<String>) -> (r: bool)
    ensures
        r == share_a_term(views(a@), views(b@)),
{
    let mut i: usize = 0;
    while i < a.len()
        invariant
            i <= a.len(),
            forall|k: int| 0 <= k < i ==> !listed(views(b@), #[trigger] views(a@)[k]),
        decreases a.len() - i,
    {
        proof {
            assert(views(a@)[i as int] == a@[i as int]@);
        }
        if text::one_of(b, a[i].as_str()) {
            return true;
        }
        i += 1;
    }
    false
}

fn has_id(ids: &Vec<u128>, id: u128) -> (r: bool)
    ensures
        r == ids@.contains(id),
{
    let mut i: usize = 0;
    while i < ids.len()
        invariant
            i <= ids.len(),
            forall|k: int| 0 <= k < i ==> ids@[k] != id,
        decreases ids.len() - i,
    {
        if ids[i] == id {
            return true;
        }
        i += 1;
    }
    false
}

/// The memories that a query leads to along the graph.
pub fn graph_links(edges: &Vec<EdgeTerms>, terms: &Vec<String>) -> (r: Vec<u128>)
    ensures
        r@ == linked(edge_terms_views(edges@), views(terms@)),
{
    let ghost all = edge_terms_views(edges@);
    let mut out: Vec<u128> = Vec::new();
    let mut i: usize = 0;
    proof {
        assert(all.take(0) =~= seq![]);
    }
    while i < edges.len()
        invariant
            i <= edges.len(),
            all == edge_terms_views(edges@),
            out@ == linked(all.take(i as int), views(terms@)),
        decreases edges.len() - i,
    {
        proof {
            assert(all.take(i + 1).drop_last() =~= all.take(i as int));
            assert(all.take(i + 1).last() == edges@[i as int]@);
        }
        let e = &edges[i];
        if let Some(id) = e.source_memory_id {
            if (any_term(&e.src, terms) || any_term(&e.dst, terms)) && !has_id(&out, id) {
                out.push(id);
            }
        }
        i += 1;
    }
    proof {
        assert(all.take(all.len() as int) =~= all);
    }
    out
}

// ── Age and record ───────────────────────────────────────────────────────────────────

/// How old a memory is, in whole seconds; nothing is younger than new.
pub fn age_seconds(now: i128, updated_at: i128) -> (r: i128)
    requires
        i128::MIN <= now - updated_at <= i128::MAX,
    ensures
        r == if now < updated_at {
            0
        } else {
            (now - updated_at) / 1_000_000_000
        },
{
    if now < updated_at {
        0
    } else {
        (now - updated_at) / 1_000_000_000
    }
}

/// The record of a search for the query log.
pub fn query_record(
    query: &str,
    scope: &MemoryScope,
    k: usize,
    project: &Option<String>,
    hits: &Vec<MemoryHit>,
    matched: bool,
    top_similarity: Option<Json>,
    duration_ms: Json,
) -> (r: QueryRecord)
    ensures
        r.tenant_id@ == tenant_or_default(scope@.tenant_id),
        opt_view(r.user_id) == scope@.user_id,
        opt_view(r.agent_id) == scope@.agent_id,
        opt_view(r.project) == opt_view(*project),
        opt_view(r.query) == Some(query@),
        r.k == k,
        r.results == hits@.len(),
        r.matched == matched,
        opt_view(r.top_subject) == if hits@.len() > 0 {
            hits@[0]@.memory.subject
        } else {
            None
        },
        r.top_similarity == top_similarity,
        r.duration_ms == duration_ms,
{
    let top_subject = if hits.len() > 0 {
        copy_opt(&hits[0].memory.subject)
    } else {
        None
    };
    QueryRecord {
        tenant_id: tenant_of(scope.tenant_id.as_str()),
        user_id: copy_opt(&scope.user_id),
        agent_id: copy_opt(&scope.agent_id),
        project: copy_opt(project),
        query: Some(query.to_owned()),
        k,
        results: hits.len(),
        matched,
        top_subject,
        top_similarity,
        duration_ms,
    }
}

/// What the vector index found: those entries whose memory is there and active, as near as the
/// index says.
pub open spec fn index_hits(found: Seq<(Option<MemoryView>, Score)>) -> Seq<HitView>
    decreases found.len(),
{
    if found.len() == 0 {
        seq![]
    } else {
        let before = index_hits(found.drop_last());
        match found.last().0 {
            Some(m) if m.state == MemoryState::Active => before.push(
                HitView {
                    memory: m,
                    score: found.last().1,
                    similarity: Some(found.last().1),
                    lexical: None,
                },
            ),
            _ => before,
        }
    }
}

pub open spec fn found_views(v: Seq<(Option<Memory>, Score)>) -> Seq<(Option<MemoryView>, Score)> {
    v.map_values(
        |e: (Option<Memory>, Score)|
            (
                match e.0 {
                    Some(m) => Some(m@),
                    None => None,
                },
                e.1,
            ),
    )
}

/// The hits of the vector index, from its entries in order, each with what the store has under its
/// id.
pub fn memory_index_search(found: Vec<(Option<Memory>, Score)>) -> (r: Vec<MemoryHit>)
    ensures
        hit_views(r@) == index_hits(found_views(found@)),
{
    let ghost all = found_views(found@);
    let mut out: Vec<MemoryHit> = Vec::new();
    let mut i: usize = 0;
    proof {
        assert(all.take(0) =~= seq![]);
        assert(hit_views(out@) =~= seq![]);
    }
    while i < found.len()
        invariant
            i <= found.len(),
            all == found_views(found@),
            hit_views(out@) == index_hits(all.take(i as int)),
        decreases found.len() - i,
    {
        let ghost before = out@;
        proof {
            assert(all.take(i + 1).drop_last() =~= all.take(i as int));
            assert(all.take(i + 1).last() == all[i as int]);
        }
        if let Some(m) = &found[i].0 {
            if is_active(m) {
                let hit = MemoryHit {
                    memory: m.copy(),
                    score: found[i].1,
                    similarity: Some(found[i].1),
                    lexical: None,
                };
                let ghost v = hit@;
                out.push(hit);
                proof {
                    assert(hit_views(out@) =~= hit_views(before).push(v));
                }
            }
        }
        i += 1;
    }
    proof {
        assert(all.take(all.len() as int) =~= all);
    }
    out
}

// ── Laws ─────────────────────────────────────────────────────────────────────────────

/// A search in a project never takes a memory of another: not from the words, not by vector, not
/// along the graph, nor by falling back.
pub proof fn law_projects_are_kept_apart(
    ms: Seq<MemoryView>,
    hits: Seq<HitView>,
    s: SearchView,
    project: Seq<char>,
    i: int,
    id: u128,
    read: Option<MemoryView>,
)
    requires
        s.project == Some(project),
    ensures
        with_linked(s, id, read).by_graph != s.by_graph ==> with_linked(
            s,
            id,
            read,
        ).known[id].project == Some(project),
        0 <= i < fallback(ms, Some(project)).len() ==> fallback(ms, Some(project))[i].memory.project
            == Some(project),
        0 <= i < narrowed(ms, Some(project)).len() ==> narrowed(ms, Some(project))[i].project
            == Some(project),
        s.by_vector.len() <= i < with_vectors(s, hits).by_vector.len() ==> exists|j: int|
            0 <= j < hits.len() && (#[trigger] hits[j]).memory.id == with_vectors(
                s,
                hits,
            ).by_vector[i] && hits[j].memory.project == Some(project),
    decreases hits.len(),
{
    let p = |m: MemoryView| of_project(m, Some(project));
    if 0 <= i < narrowed(ms, Some(project)).len() {
        ms.lemma_filter_pred(p, i);
        assert(p(ms.filter(p)[i]));
    }
    if hits.len() > 0 {
        let rest = hits.drop_last();
        law_projects_are_kept_apart(ms, rest, s, project, i, id, read);
        let now = with_vectors(s, hits).by_vector;
        let before = with_vectors(s, rest).by_vector;
        if s.by_vector.len() <= i < now.len() {
            if i < before.len() {
                assert(now[i] == before[i]);
                let j = choose|j: int|
                    0 <= j < rest.len() && (#[trigger] rest[j]).memory.id == before[i]
                        && rest[j].memory.project == Some(project);
                assert(hits[j] == rest[j]);
            } else {
                assert(hits[hits.len() - 1] == hits.last());
                assert(now[i] == hits.last().memory.id);
            }
        }
    }
}

/// The graph only adds active memories of the scope, and of the project, that were asked for.
pub proof fn law_the_graph_stays_in_scope(s: SearchView, id: u128, read: Option<MemoryView>)
    ensures
        ({
            let after = with_linked(s, id, read);
            &&& after.by_graph == s.by_graph || (after.by_graph == s.by_graph.push(id)
                && after.known.contains_key(id) && after.known[id].state == MemoryState::Active
                && after.known[id].scope == s.scope && of_project(after.known[id], s.project))
        }),
{
}

/// Is a memory what a search asks for: active, of its scope, and of its project where it names one?
pub open spec fn asked_for(m: MemoryView, scope: ScopeView, project: Option<Seq<char>>) -> bool {
    m.state == MemoryState::Active && m.scope == scope && of_project(m, project)
}

/// The search with the memories that the graph leads to, each with what the store has under its id.
pub open spec fn with_all_linked(s: SearchView, links: Seq<(u128, Option<MemoryView>)>) -> SearchView
    decreases links.len(),
{
    if links.len() == 0 {
        s
    } else {
        with_linked(with_all_linked(s, links.drop_last()), links.last().0, links.last().1)
    }
}

/// A whole search: what the words found among the candidates of the scope, what the vector index
/// found, and what the graph leads to.
pub open spec fn gathered(
    scope: ScopeView,
    project: Option<Seq<char>>,
    candidates: Seq<MemoryView>,
    ranked: Seq<(usize, Score)>,
    found: Seq<(Option<MemoryView>, Score)>,
    links: Seq<(u128, Option<MemoryView>)>,
) -> SearchView {
    with_all_linked(
        with_vectors(
            with_words(fresh_search(scope, project), narrowed(candidates, project), ranked),
            index_hits(found),
        ),
        links,
    )
}

/// All that is known is asked for, and all that an arm names is known.
spec fn on_target(s: SearchView) -> bool {
    &&& forall|id: u128| #[trigger]
        s.known.contains_key(id) ==> asked_for(s.known[id], s.scope, s.project)
    &&& forall|i: int| 0 <= i < s.by_words.len() ==> s.known.contains_key(#[trigger] s.by_words[i])
    &&& forall|i: int| 0 <= i < s.by_vector.len() ==> s.known.contains_key(#[trigger] s.by_vector[i])
    &&& forall|i: int| 0 <= i < s.by_graph.len() ==> s.known.contains_key(#[trigger] s.by_graph[i])
}

proof fn lemma_with_memories(known: Map<u128, MemoryView>, ms: Seq<MemoryView>)
    ensures
        forall|id: u128| known.contains_key(id) ==> #[trigger] with_memories(
            known,
            ms,
        ).contains_key(id),
        forall|i: int| 0 <= i < ms.len() ==> with_memories(known, ms).contains_key(
            (#[trigger] ms[i]).id,
        ),
        forall|id: u128| #[trigger]
            with_memories(known, ms).contains_key(id) ==> (known.contains_key(id) && with_memories(
                known,
                ms,
            )[id] == known[id]) || ms.contains(with_memories(known, ms)[id]),
    decreases ms.len(),
{
    if ms.len() > 0 {
        let rest = ms.drop_last();
        lemma_with_memories(known, rest);
        let before = with_memories(known, rest);
        let after = with_memories(known, ms);
        assert(ms[ms.len() - 1] == ms.last());
        assert forall|i: int| 0 <= i < ms.len() implies after.contains_key(
            (#[trigger] ms[i]).id,
        ) by {
            if i < rest.len() {
                assert(rest[i] == ms[i]);
            }
        }
        assert forall|id: u128| #[trigger] after.contains_key(id) implies (known.contains_key(id)
            && after[id] == known[id]) || ms.contains(after[id]) by {
            if id == ms.last().id {
                assert(ms.contains(after[id]));
            } else {
                assert(before.contains_key(id));
                if rest.contains(before[id]) {
                    let k = choose|k: int| 0 <= k < rest.len() && rest[k] == before[id];
                    assert(ms[k] == after[id]);
                }
            }
        }
    }
}

proof fn lemma_index_hits_active(found: Seq<(Option<MemoryView>, Score)>, scope: ScopeView)
    requires
        forall|i: int|
            0 <= i < found.len() && (#[trigger] found[i]).0 is Some ==> found[i].0->0.scope
                == scope,
    ensures
        forall|i: int|
            0 <= i < index_hits(found).len() ==> (#[trigger] index_hits(found)[i]).memory.state
                == MemoryState::Active && index_hits(found)[i].memory.scope == scope,
    decreases found.len(),
{
    if found.len() > 0 {
        let rest = found.drop_last();
        assert(found[found.len() - 1] == found.last());
        assert forall|i: int| 0 <= i < rest.len() && (#[trigger] rest[i]).0 is Some implies rest[
            i
        ].0->0.scope == scope by {
            assert(rest[i] == found[i]);
        }
        lemma_index_hits_active(rest, scope);
    }
}

proof fn lemma_vectors_on_target(s: SearchView, hits: Seq<HitView>)
    requires
        on_target(s),
        forall|i: int|
            0 <= i < hits.len() ==> (#[trigger] hits[i]).memory.state == MemoryState::Active
                && hits[i].memory.scope == s.scope,
    ensures
        on_target(with_vectors(s, hits)),
        with_vectors(s, hits).scope == s.scope,
        with_vectors(s, hits).project == s.project,
    decreases hits.len(),
{
    if hits.len() > 0 {
        let rest = hits.drop_last();
        assert(hits[hits.len() - 1] == hits.last());
        assert forall|i: int| 0 <= i < rest.len() implies (#[trigger] rest[i]).memory.state
            == MemoryState::Active && rest[i].memory.scope == s.scope by {
            assert(rest[i] == hits[i]);
        }
        lemma_vectors_on_target(s, rest);
        let b = with_vectors(s, rest);
        let a = with_vectors(s, hits);
        assert forall|i: int| 0 <= i < a.by_vector.len() implies a.known.contains_key(
            #[trigger] a.by_vector[i],
        ) by {
            if i < b.by_vector.len() {
                assert(a.by_vector[i] == b.by_vector[i]);
            }
        }
    }
}

proof fn lemma_links_on_target(s: SearchView, links: Seq<(u128, Option<MemoryView>)>)
    requires
        on_target(s),
    ensures
        on_target(with_all_linked(s, links)),
        with_all_linked(s, links).scope == s.scope,
        with_all_linked(s, links).project == s.project,
    decreases links.len(),
{
    if links.len() > 0 {
        lemma_links_on_target(s, links.drop_last());
        let b = with_all_linked(s, links.drop_last());
        let a = with_all_linked(s, links);
        assert forall|i: int| 0 <= i < a.by_graph.len() implies a.known.contains_key(
            #[trigger] a.by_graph[i],
        ) by {
            if i < b.by_graph.len() {
                assert(a.by_graph[i] == b.by_graph[i]);
            }
        }
    }
}

/// Every hit of a search is active, of the scope and of the project that were asked for, whichever
/// arm found it and whatever the graph leads to, where the store lists active memories of the scope
/// as candidates and the vector index holds memories of the scope: all that an arm names can be
/// drawn, and nothing else can.
pub proof fn law_hits_are_what_was_asked_for(
    scope: ScopeView,
    project: Option<Seq<char>>,
    candidates: Seq<MemoryView>,
    ranked: Seq<(usize, Score)>,
    found: Seq<(Option<MemoryView>, Score)>,
    links: Seq<(u128, Option<MemoryView>)>,
    vector_weight: Score,
    word_weight: Score,
)
    requires
        forall|i: int|
            0 <= i < candidates.len() ==> (#[trigger] candidates[i]).state == MemoryState::Active
                && candidates[i].scope == scope,
        forall|i: int|
            0 <= i < ranked.len() ==> (#[trigger] ranked[i]).0 < narrowed(
                candidates,
                project,
            ).len(),
        forall|i: int|
            0 <= i < found.len() && (#[trigger] found[i]).0 is Some ==> found[i].0->0.scope
                == scope,
    ensures
        ({
            let s = gathered(scope, project, candidates, ranked, found, links);
            &&& forall|id: u128| #[trigger]
                s.known.contains_key(id) ==> asked_for(s.known[id], scope, project)
            &&& forall|a: int, i: int|
                0 <= a < arms_of(s, vector_weight, word_weight).len() && 0 <= i < arms_of(
                    s,
                    vector_weight,
                    word_weight,
                )[a].0.len() ==> s.known.contains_key(
                    #[trigger] arms_of(s, vector_weight, word_weight)[a].0[i],
                )
        }),
{
    let ms = narrowed(candidates, project);
    let fresh = fresh_search(scope, project);
    let words = with_words(fresh, ms, ranked);
    let p = |m: MemoryView| of_project(m, project);
    lemma_with_memories(fresh.known, ms);
    assert forall|id: u128| #[trigger] words.known.contains_key(id) implies asked_for(
        words.known[id],
        scope,
        project,
    ) by {
        let m = words.known[id];
        assert(ms.contains(m));
        let k = choose|k: int| 0 <= k < ms.len() && ms[k] == m;
        candidates.lemma_filter_pred(p, k);
        candidates.lemma_filter_contains_rev(p, m);
        let j = choose|j: int| 0 <= j < candidates.len() && candidates[j] == m;
        assert(candidates[j].scope == scope);
    }
    assert forall|i: int| 0 <= i < words.by_words.len() implies words.known.contains_key(
        #[trigger] words.by_words[i],
    ) by {
        assert(ranked[i].0 < ms.len());
        assert(words.by_words[i] == ms[ranked[i].0 as int].id);
    }
    assert(on_target(words));
    lemma_index_hits_active(found, scope);
    lemma_vectors_on_target(words, index_hits(found));
    lemma_links_on_target(with_vectors(words, index_hits(found)), links);
}

/// Words alone are enough to match: where they found anything, there is an arm, and it is theirs
/// that is fused.
pub proof fn law_words_alone_match(s: SearchView, vector_weight: Score, word_weight: Score)
    ensures
        arms_of(s, vector_weight, word_weight).len() == 0 <==> s.by_words.len() == 0
            && s.by_vector.len() == 0 && s.by_graph.len() == 0,
        s.by_words.len() > 0 ==> arms_of(s, vector_weight, word_weight).contains(
            (s.by_words, word_weight),
        ),
{
    if s.by_words.len() > 0 {
        let arms = arms_of(s, vector_weight, word_weight);
        let at: int = if s.by_vector.len() > 0 {
            1
        } else {
            0
        };
        assert(arms[at] == (s.by_words, word_weight));
    }
}

} // verus!
