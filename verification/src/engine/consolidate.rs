//! Folding memories together: the least important ones, and those that say nearly the same.

use vstd::prelude::*;

use crate::engine::extract::{fact_views, Fact, FactView};
use crate::engine::plan::{join_ids, joined_ids};
use crate::ids::{uuid_notation, uuid_text};
use crate::json;
use crate::json::{Json, JsonView};
use crate::memory::cognition::{
    copy_bits, hit_views, input_views, memory_views, new_input, row_views, vector_view, HitView,
    InputView, Memory, MemoryHit, MemoryInput, MemoryRow, MemoryScope, MemoryView, RowView,
    ScopeView,
};
use crate::score::{at_least, larger, nan, Score};
use crate::seqs::{lemma_filter_none, lemma_filter_take};
use crate::text;
use crate::text::{decimal_of, joined, opt_view, trimmed, views};

verus! {

broadcast use vstd::string::group_string_axioms;

// ── Summaries ────────────────────────────────────────────────────────────────────────

pub open spec fn bullets(ms: Seq<MemoryView>) -> Seq<Seq<char>> {
    ms.map_values(|m: MemoryView| "- "@ + m.content)
}

/// What memories say, one line each.
pub open spec fn listing(ms: Seq<MemoryView>) -> Seq<char> {
    joined(bullets(ms), "\n"@)
}

/// The summary of memories: what a model made of them, where that is not blank, and the list of
/// them otherwise.
pub open spec fn summary(ms: Seq<MemoryView>, reply: Option<Seq<char>>) -> Seq<char> {
    match reply {
        Some(t) if trimmed(t).len() > 0 => trimmed(t),
        _ => "Consolidated "@ + decimal_of(ms.len()) + " memories:\n"@ + listing(ms),
    }
}

/// Lists memories, for a model to sum up.
pub fn list(ms: &Vec<Memory>) -> (r: String)
    ensures
        r@ == listing(memory_views(ms@)),
{
    let ghost all = bullets(memory_views(ms@));
    let mut lines: Vec<String> = Vec::new();
    let mut i: usize = 0;
    proof {
        assert(views(lines@) =~= all.take(0));
    }
    while i < ms.len()
        invariant
            i <= ms.len(),
            all == bullets(memory_views(ms@)),
            views(lines@) == all.take(i as int),
        decreases ms.len() - i,
    {
        let ghost before = lines@;
        lines.push(text::cat("- ", ms[i].content.as_str()));
        i += 1;
        proof {
            assert(memory_views(ms@)[i - 1] == ms@[i - 1]@);
            assert(views(lines@) =~= views(before).push(all[i - 1]));
            assert(all.take(i as int) =~= all.take(i - 1).push(all[i - 1]));
        }
    }
    proof {
        assert(all.take(all.len() as int) =~= all);
    }
    text::join(&lines, "\n")
}

/// Sums memories up.
pub fn summarize_memories(ms: &Vec<Memory>, reply: Option<String>) -> (r: String)
    ensures
        r@ == summary(memory_views(ms@), opt_view(reply)),
{
    if let Some(t) = reply {
        let short = text::trim_str(t.as_str());
        if text::chars(short.as_str()).len() > 0 {
            return short;
        }
    }
    text::cat4(
        "Consolidated ",
        text::decimal(ms.len() as u64).as_str(),
        " memories:\n",
        list(ms).as_str(),
    )
}

// ── The least important ──────────────────────────────────────────────────────────────

/// The memories past the first `keep`, where there are any.
pub open spec fn tail(actives: Seq<MemoryView>, keep: nat) -> Option<Seq<MemoryView>> {
    if actives.len() <= keep {
        None
    } else {
        Some(actives.skip(keep as int))
    }
}

/// What is folded where `keep` memories are kept. The active memories come the most important
/// first, so that it is the least important that are.
pub fn fold_tail(actives: &Vec<Memory>, keep: usize) -> (r: Option<Vec<Memory>>)
    ensures
        match (r, tail(memory_views(actives@), keep as nat)) {
            (Some(ms), Some(views)) => memory_views(ms@) == views,
            (None, None) => true,
            _ => false,
        },
{
    if actives.len() <= keep {
        return None;
    }
    let ghost all = memory_views(actives@).skip(keep as int);
    let mut out: Vec<Memory> = Vec::new();
    let mut i: usize = keep;
    proof {
        assert(memory_views(out@) =~= all.take(0));
    }
    while i < actives.len()
        invariant
            keep <= i <= actives.len(),
            all == memory_views(actives@).skip(keep as int),
            memory_views(out@) == all.take(i - keep),
        decreases actives.len() - i,
    {
        let ghost before = out@;
        out.push(actives[i].copy());
        i += 1;
        proof {
            assert(all[i - 1 - keep] == actives@[i - 1]@);
            assert(memory_views(out@) =~= memory_views(before).push(all[i - 1 - keep]));
            assert(all.take(i - keep) =~= all.take(i - 1 - keep).push(all[i - 1 - keep]));
        }
    }
    proof {
        assert(all.take(all.len() as int) =~= all);
    }
    Some(out)
}

pub open spec fn ids_of(ms: Seq<MemoryView>) -> Seq<u128> {
    ms.map_values(|m: MemoryView| m.id)
}

pub open spec fn id_texts(ms: Seq<MemoryView>) -> Seq<Seq<char>> {
    ms.map_values(|m: MemoryView| uuid_notation(m.id))
}

/// Where the engine's own summaries come from.
pub open spec fn own_origin() -> JsonView {
    JsonView::Object(seq![("source"@, JsonView::Str("ecphoria:consolidation"@))])
}

/// The summary that takes the place of folded memories.
pub open spec fn folded(scope: ScopeView, ms: Seq<MemoryView>, content: Seq<char>) -> InputView {
    InputView {
        importance: Some(Score { bits: 0x3f19_999a }),
        metadata: JsonView::Object(
            seq![
                ("consolidated"@, JsonView::Bool(true)),
                ("source_memory_ids"@, JsonView::Array(json::string_views(id_texts(ms)))),
                ("provenance"@, own_origin()),
            ],
        ),
        ..new_input(scope, content)
    }
}

fn list_ids(ms: &Vec<Memory>) -> (r: (Vec<u128>, Vec<String>))
    ensures
        r.0@ == ids_of(memory_views(ms@)),
        views(r.1@) == id_texts(memory_views(ms@)),
{
    let ghost all = memory_views(ms@);
    let mut ids: Vec<u128> = Vec::new();
    let mut texts: Vec<String> = Vec::new();
    let mut i: usize = 0;
    proof {
        assert(ids@ =~= ids_of(all).take(0));
        assert(views(texts@) =~= id_texts(all).take(0));
    }
    while i < ms.len()
        invariant
            i <= ms.len(),
            all == memory_views(ms@),
            ids@ == ids_of(all).take(i as int),
            views(texts@) == id_texts(all).take(i as int),
        decreases ms.len() - i,
    {
        let ghost before = texts@;
        ids.push(ms[i].id);
        texts.push(uuid_text(ms[i].id));
        i += 1;
        proof {
            assert(all[i - 1] == ms@[i - 1]@);
            assert(ids_of(all).take(i as int) =~= ids_of(all).take(i - 1).push(ids_of(all)[i - 1]));
            assert(views(texts@) =~= views(before).push(id_texts(all)[i - 1]));
            assert(id_texts(all).take(i as int) =~= id_texts(all).take(i - 1).push(
                id_texts(all)[i - 1],
            ));
        }
    }
    proof {
        assert(ids_of(all).take(all.len() as int) =~= ids_of(all));
        assert(id_texts(all).take(all.len() as int) =~= id_texts(all));
    }
    (ids, texts)
}

/// Plans the folding of memories into a summary: the summary, and the memories that are expired for
/// it.
pub fn memory_consolidate_plan(scope: &MemoryScope, ms: &Vec<Memory>, content: String) -> (r: (
    MemoryInput,
    Vec<u128>,
))
    ensures
        r.0@ == folded(scope@, memory_views(ms@), content@),
        r.1@ == ids_of(memory_views(ms@)),
{
    let (ids, texts) = list_ids(ms);
    let mut input = MemoryInput::new(scope.copy(), content);
    input.importance = Some(Score { bits: 0x3f19_999a });
    input.metadata = json::object3(
        "consolidated",
        Json::Bool(true),
        "source_memory_ids",
        json::strings(&texts),
        "provenance",
        json::object1("source", json::string("ecphoria:consolidation")),
    );
    (input, ids)
}

/// What is kept and what is folded make up all there is, and nothing is both.
pub proof fn law_folding_takes_the_tail(actives: Seq<MemoryView>, keep: nat)
    ensures
        tail(actives, keep) is Some <==> actives.len() > keep,
        tail(actives, keep) matches Some(ms) ==> actives.take(keep as int) + ms == actives,
{
    if actives.len() > keep {
        assert(actives.take(keep as int) + actives.skip(keep as int) =~= actives);
    }
}

// ── Near duplicates ──────────────────────────────────────────────────────────────────

/// Which memories were looked at already, while clusters are formed.
pub struct Clusters {
    grouped: Vec<u128>,
}

impl View for Clusters {
    type V = Set<u128>;

    closed spec fn view(&self) -> Set<u128> {
        self.grouped@.to_set()
    }
}

/// The cluster around a memory: the hits that are similar enough, and were in none before.
pub open spec fn cluster_of(grouped: Set<u128>, hits: Seq<HitView>, threshold: Score) -> Seq<
    MemoryView,
> {
    hits.filter(
        |h: HitView| at_least(h.score, threshold) && !grouped.contains(h.memory.id),
    ).map_values(|h: HitView| h.memory)
}

/// What counts as looked at, once the cluster around a memory is formed: its members, or the memory
/// alone where it is no cluster.
pub open spec fn grouped_after(grouped: Set<u128>, id: u128, cluster: Seq<MemoryView>) -> Set<u128> {
    if cluster.len() < 2 {
        grouped.insert(id)
    } else {
        grouped.union(ids_of(cluster).to_set())
    }
}

impl Clusters {
    pub fn new() -> (r: Clusters)
        ensures
            r@ == Set::<u128>::empty(),
    {
        let grouped: Vec<u128> = Vec::new();
        proof {
            assert(grouped@.to_set() =~= Set::<u128>::empty());
        }
        Clusters { grouped }
    }

    /// Was a memory looked at already?
    pub fn has(&self, id: u128) -> (r: bool)
        ensures
            r == self@.contains(id),
    {
        let mut i: usize = 0;
        while i < self.grouped.len()
            invariant
                i <= self.grouped.len(),
                forall|k: int| 0 <= k < i ==> self.grouped@[k] != id,
            decreases self.grouped.len() - i,
        {
            if self.grouped[i] == id {
                return true;
            }
            i += 1;
        }
        false
    }

    fn put(&mut self, id: u128)
        ensures
            final(self)@ == old(self)@.insert(id),
    {
        let ghost before = self.grouped@;
        self.grouped.push(id);
        proof {
            assert(self.grouped@ =~= before.push(id));
            before.lemma_push_to_set_commute(id);
        }
    }

    /// Forms the cluster around a memory from the hits of a search for its vector. There is none
    /// where fewer than two are left.
    pub fn form(self, id: u128, hits: &Vec<MemoryHit>, threshold: Score) -> (r: (
        Clusters,
        Option<Vec<Memory>>,
    ))
        ensures
            ({
                let cluster = cluster_of(self@, hit_views(hits@), threshold);
                &&& r.0@ == grouped_after(self@, id, cluster)
                &&& match r.1 {
                    Some(ms) => cluster.len() >= 2 && memory_views(ms@) == cluster,
                    None => cluster.len() < 2,
                }
            }),
    {
        let ghost all = hit_views(hits@);
        let ghost start = self@;
        let ghost p = |h: HitView|
            at_least(h.score, threshold) && !start.contains(h.memory.id);
        let ghost f = |h: HitView| h.memory;
        let mut cluster: Vec<Memory> = Vec::new();
        let mut i: usize = 0;
        proof {
            lemma_filter_none(all, p);
            assert(memory_views(cluster@) =~= all.take(0).filter(p).map_values(f));
        }
        while i < hits.len()
            invariant
                i <= hits.len(),
                all == hit_views(hits@),
                start == self@,
                p == |h: HitView| at_least(h.score, threshold) && !start.contains(h.memory.id),
                f == |h: HitView| h.memory,
                memory_views(cluster@) == all.take(i as int).filter(p).map_values(f),
            decreases hits.len() - i,
        {
            let ghost before = cluster@;
            proof {
                lemma_filter_take(all, p, i as int);
                assert(all[i as int] == hits@[i as int]@);
            }
            if hits[i].score.is_at_least(threshold) && !self.has(hits[i].memory.id) {
                cluster.push(hits[i].memory.copy());
                proof {
                    let kept = all.take(i as int).filter(p);
                    assert(memory_views(cluster@) =~= memory_views(before).push(
                        all[i as int].memory,
                    ));
                    assert(kept.push(all[i as int]).map_values(f) =~= kept.map_values(f).push(
                        all[i as int].memory,
                    ));
                }
            }
            i += 1;
        }
        proof {
            assert(all.take(all.len() as int) =~= all);
            assert(memory_views(cluster@) == cluster_of(start, all, threshold));
        }
        let mut next = self;
        if cluster.len() < 2 {
            next.put(id);
            return (next, None);
        }
        let ghost ids = ids_of(memory_views(cluster@));
        let mut k: usize = 0;
        proof {
            assert(ids.take(0).to_set() =~= Set::<u128>::empty());
            assert(next@ =~= start.union(ids.take(0).to_set()));
        }
        while k < cluster.len()
            invariant
                k <= cluster.len(),
                ids == ids_of(memory_views(cluster@)),
                next@ == start.union(ids.take(k as int).to_set()),
            decreases cluster.len() - k,
        {
            next.put(cluster[k].id);
            k += 1;
            proof {
                let before = ids.take(k - 1);
                let x = ids[k - 1];
                assert(ids.take(k as int) =~= before.push(x));
                before.lemma_push_to_set_commute(x);
                assert(ids.take(k as int).to_set() =~= before.to_set().insert(x));
                assert(next@ =~= start.union(ids.take(k as int).to_set()));
            }
        }
        proof {
            assert(ids.take(ids.len() as int) =~= ids);
        }
        (next, Some(cluster))
    }
}

/// What counts as looked at before round `n`, where each round is a memory and the hits of the
/// search for its vector.
pub open spec fn grouped_before(
    grouped: Set<u128>,
    rounds: Seq<(u128, Seq<HitView>)>,
    threshold: Score,
    n: nat,
) -> Set<u128>
    decreases n,
{
    if n == 0 {
        grouped
    } else {
        let before = grouped_before(grouped, rounds, threshold, (n - 1) as nat);
        let round = rounds[n - 1];
        grouped_after(before, round.0, cluster_of(before, round.1, threshold))
    }
}

/// The cluster that round `n` forms.
pub open spec fn cluster_in(
    grouped: Set<u128>,
    rounds: Seq<(u128, Seq<HitView>)>,
    threshold: Score,
    n: nat,
) -> Seq<MemoryView> {
    cluster_of(grouped_before(grouped, rounds, threshold, n), rounds[n as int].1, threshold)
}

proof fn lemma_grouped_grows(
    grouped: Set<u128>,
    rounds: Seq<(u128, Seq<HitView>)>,
    threshold: Score,
    a: nat,
    b: nat,
    id: u128,
)
    requires
        a <= b,
        grouped_before(grouped, rounds, threshold, a).contains(id),
    ensures
        grouped_before(grouped, rounds, threshold, b).contains(id),
    decreases b,
{
    if a < b {
        lemma_grouped_grows(grouped, rounds, threshold, a, (b - 1) as nat, id);
    }
}

/// No memory is folded twice: what is in the cluster of one round was in none before, and is in that
/// of no later round.
pub proof fn law_clusters_are_disjoint(
    grouped: Set<u128>,
    rounds: Seq<(u128, Seq<HitView>)>,
    threshold: Score,
    a: nat,
    b: nat,
    i: int,
    j: int,
)
    requires
        a < b < rounds.len(),
        cluster_in(grouped, rounds, threshold, a).len() >= 2,
        0 <= i < cluster_in(grouped, rounds, threshold, a).len(),
        0 <= j < cluster_in(grouped, rounds, threshold, b).len(),
    ensures
        !grouped_before(grouped, rounds, threshold, a).contains(
            cluster_in(grouped, rounds, threshold, a)[i].id,
        ),
        cluster_in(grouped, rounds, threshold, b)[j].id != cluster_in(
            grouped,
            rounds,
            threshold,
            a,
        )[i].id,
{
    let before = grouped_before(grouped, rounds, threshold, a);
    let later = grouped_before(grouped, rounds, threshold, b);
    let hits = rounds[a as int].1;
    let more = rounds[b as int].1;
    let p = |h: HitView| at_least(h.score, threshold) && !before.contains(h.memory.id);
    let q = |h: HitView| at_least(h.score, threshold) && !later.contains(h.memory.id);
    hits.lemma_filter_pred(p, i);
    more.lemma_filter_pred(q, j);
    assert(p(hits.filter(p)[i]));
    assert(q(more.filter(q)[j]));
    let cluster = cluster_in(grouped, rounds, threshold, a);
    assert(ids_of(cluster)[i] == cluster[i].id);
    assert(grouped_before(grouped, rounds, threshold, a + 1).contains(cluster[i].id));
    lemma_grouped_grows(grouped, rounds, threshold, a + 1, b, cluster[i].id);
}

/// The largest importance among memories.
pub open spec fn strongest(ms: Seq<MemoryView>) -> Score
    decreases ms.len(),
{
    if ms.len() == 0 {
        Score { bits: 0 }
    } else {
        larger(strongest(ms.drop_last()), ms.last().importance)
    }
}

/// The events behind memories, each once.
pub open spec fn all_sources(ms: Seq<MemoryView>) -> Seq<u128>
    decreases ms.len(),
{
    if ms.len() == 0 {
        seq![]
    } else {
        joined_ids(all_sources(ms.drop_last()), ms.last().source_event_ids)
    }
}

/// The summary that takes the place of a cluster: as important as the most important, with the
/// events behind all.
pub open spec fn merged(scope: ScopeView, ms: Seq<MemoryView>, content: Seq<char>) -> InputView {
    InputView {
        importance: Some(strongest(ms)),
        source_event_ids: all_sources(ms),
        metadata: JsonView::Object(
            seq![
                ("consolidated"@, JsonView::Bool(true)),
                ("consolidation"@, JsonView::Str("semantic"@)),
                ("source_memory_ids"@, JsonView::Array(json::string_views(id_texts(ms)))),
                ("provenance"@, own_origin()),
            ],
        ),
        ..new_input(scope, content)
    }
}

/// What supported the memories of a cluster supports the summary, and nothing else does; and the
/// summary is as important as any of them.
pub proof fn law_summaries_carry_the_evidence(ms: Seq<MemoryView>, id: u128, i: int)
    ensures
        all_sources(ms).contains(id) <==> exists|k: int|
            0 <= k < ms.len() && (#[trigger] ms[k]).source_event_ids.contains(id),
        0 <= i < ms.len() && !nan(ms[i].importance) ==> at_least(strongest(ms), ms[i].importance),
    decreases ms.len(),
{
    if ms.len() > 0 {
        let rest = ms.drop_last();
        law_summaries_carry_the_evidence(rest, id, i);
        crate::engine::plan_laws::lemma_joined_ids(
            all_sources(rest),
            ms.last().source_event_ids,
            id,
        );
        if exists|k: int|
            0 <= k < rest.len() && (#[trigger] rest[k]).source_event_ids.contains(id) {
            let k = choose|k: int|
                0 <= k < rest.len() && (#[trigger] rest[k]).source_event_ids.contains(id);
            assert(ms[k].source_event_ids.contains(id));
        }
        if ms.last().source_event_ids.contains(id) {
            assert(ms[ms.len() - 1].source_event_ids.contains(id));
        }
        assert forall|k: int|
            0 <= k < ms.len() && (#[trigger] ms[k]).source_event_ids.contains(id) implies all_sources(
            ms,
        ).contains(id) by {
            if k < rest.len() {
                assert(rest[k] == ms[k]);
            }
        }
        if 0 <= i < ms.len() {
            if i < rest.len() {
                assert(rest[i] == ms[i]);
            }
        }
    }
}

/// Plans the folding of a cluster.
pub fn memory_consolidate_similar_plan(scope: &MemoryScope, ms: &Vec<Memory>, content: String) -> (r:
    (MemoryInput, Vec<u128>))
    ensures
        r.0@ == merged(scope@, memory_views(ms@), content@),
        r.1@ == ids_of(memory_views(ms@)),
{
    let ghost all = memory_views(ms@);
    let (ids, texts) = list_ids(ms);
    let mut importance = Score::zero();
    let mut sources: Vec<u128> = Vec::new();
    let mut i: usize = 0;
    proof {
        assert(all.take(0) =~= seq![]);
        assert(sources@ =~= seq![]);
    }
    while i < ms.len()
        invariant
            i <= ms.len(),
            all == memory_views(ms@),
            importance == strongest(all.take(i as int)),
            sources@ == all_sources(all.take(i as int)),
        decreases ms.len() - i,
    {
        proof {
            assert(all.take(i + 1).drop_last() =~= all.take(i as int));
            assert(all.take(i + 1).last() == ms@[i as int]@);
        }
        importance = importance.max(ms[i].importance);
        sources = join_ids(&sources, &ms[i].source_event_ids);
        i += 1;
    }
    proof {
        assert(all.take(all.len() as int) =~= all);
    }
    let mut fields: Vec<(String, Json)> = Vec::new();
    fields.push(("consolidated".to_owned(), Json::Bool(true)));
    fields.push(("consolidation".to_owned(), json::string("semantic")));
    fields.push(("source_memory_ids".to_owned(), json::strings(&texts)));
    fields.push(
        (
            "provenance".to_owned(),
            json::object1("source", json::string("ecphoria:consolidation")),
        ),
    );
    proof {
        assert(json::field_views(fields@) =~= seq![
            ("consolidated"@, JsonView::Bool(true)),
            ("consolidation"@, JsonView::Str("semantic"@)),
            ("source_memory_ids"@, JsonView::Array(json::string_views(id_texts(all)))),
            ("provenance"@, own_origin()),
        ]);
    }
    let mut input = MemoryInput::new(scope.copy(), content);
    input.importance = Some(importance);
    input.source_event_ids = sources;
    input.metadata = json::object(fields);
    (input, ids)
}

// ── New vectors, and raw text ────────────────────────────────────────────────────────

/// The rows of memories with a new vector. One that could not be embedded keeps what it has, and is
/// left out.
pub open spec fn reembedded(
    ms: Seq<MemoryView>,
    vectors: Seq<Option<Seq<u32>>>,
) -> Seq<RowView>
    decreases ms.len(),
{
    if ms.len() == 0 || vectors.len() < ms.len() {
        seq![]
    } else {
        let before = reembedded(ms.drop_last(), vectors.take(ms.len() - 1));
        match vectors[ms.len() - 1] {
            Some(v) => before.push(RowView { memory: ms.last(), embedding: Some(v) }),
            None => before,
        }
    }
}

/// Plans new vectors for memories.
pub fn memory_reembed_plan(ms: &Vec<Memory>, vectors: &Vec<Option<Vec<u32>>>) -> (r: Vec<MemoryRow>)
    requires
        vectors@.len() == ms@.len(),
    ensures
        row_views(r@) == reembedded(
            memory_views(ms@),
            crate::engine::batch::vector_views(vectors@),
        ),
{
    let ghost all = memory_views(ms@);
    let ghost vs = crate::engine::batch::vector_views(vectors@);
    let mut out: Vec<MemoryRow> = Vec::new();
    let mut i: usize = 0;
    proof {
        assert(row_views(out@) =~= seq![]);
    }
    while i < ms.len()
        invariant
            i <= ms.len(),
            vectors@.len() == ms@.len(),
            all == memory_views(ms@),
            vs == crate::engine::batch::vector_views(vectors@),
            row_views(out@) == reembedded(all.take(i as int), vs.take(i as int)),
        decreases ms.len() - i,
    {
        let ghost before = out@;
        proof {
            assert(all.take(i + 1).drop_last() =~= all.take(i as int));
            assert(all.take(i + 1).last() == ms@[i as int]@);
            assert(vs.take(i + 1).take(i as int) =~= vs.take(i as int));
            assert(vs.take(i + 1)[i as int] == vector_view(vectors@[i as int]));
        }
        if let Some(v) = &vectors[i] {
            let row = MemoryRow { memory: ms[i].copy(), embedding: Some(copy_bits(v)) };
            let ghost view = row@;
            out.push(row);
            proof {
                assert(row_views(out@) =~= row_views(before).push(view));
            }
        }
        i += 1;
    }
    proof {
        assert(all.take(all.len() as int) =~= all);
        assert(vs.take(vs.len() as int) =~= vs);
    }
    out
}

/// What is remembered of a text, as inputs.
pub open spec fn remembered(scope: ScopeView, facts: Seq<FactView>) -> Seq<InputView> {
    facts.map_values(|f: FactView| InputView { subject: f.0, ..new_input(scope, f.1) })
}

/// The inputs of the facts of a text.
pub fn memory_remember(scope: &MemoryScope, facts: Vec<Fact>) -> (r: Vec<MemoryInput>)
    ensures
        input_views(r@) == remembered(scope@, fact_views(facts@)),
{
    let ghost all = remembered(scope@, fact_views(facts@));
    let mut out: Vec<MemoryInput> = Vec::new();
    let mut i: usize = 0;
    proof {
        assert(input_views(out@) =~= all.take(0));
    }
    while i < facts.len()
        invariant
            i <= facts.len(),
            all == remembered(scope@, fact_views(facts@)),
            input_views(out@) == all.take(i as int),
        decreases facts.len() - i,
    {
        let ghost before = out@;
        let mut input = MemoryInput::new(scope.copy(), facts[i].1.clone());
        input.subject = crate::memory::cognition::copy_opt(&facts[i].0);
        proof {
            assert(fact_views(facts@)[i as int] == (
                opt_view(facts@[i as int].0),
                facts@[i as int].1@,
            ));
            assert(input@ == all[i as int]);
        }
        out.push(input);
        i += 1;
        proof {
            assert(input_views(out@) =~= input_views(before).push(all[i - 1]));
            assert(all.take(i as int) =~= all.take(i - 1).push(all[i - 1]));
        }
    }
    proof {
        assert(all.take(all.len() as int) =~= all);
    }
    out
}

} // verus!
