//! Ordering hits: the best first, and among equals the one that came first.

use vstd::prelude::*;

use crate::memory::cognition::{hit_views, HitView, MemoryHit, MemoryScope, ScopeView};
use crate::score::{above, at_least, nan, order, total, Score};
use crate::seqs::{lemma_filter_none, lemma_filter_take};

verus! {

broadcast use vstd::string::group_string_axioms;

/// By which order hits are ranked.
pub enum By {
    /// As numbers compare; what is no number compares as equal to anything.
    Number,
    /// By the order of all bit patterns.
    Total,
}

/// Does `a` come before `b`, whatever their places so far?
pub open spec fn ahead(by: By, a: Score, b: Score) -> bool {
    match by {
        By::Number => above(a, b),
        By::Total => total(a) > total(b),
    }
}

/// Where a hit goes among ranked hits: before the first that it is ahead of.
pub open spec fn slot(by: By, sorted: Seq<HitView>, hit: HitView) -> int
    decreases sorted.len(),
{
    if sorted.len() == 0 {
        0
    } else {
        let before = slot(by, sorted.drop_last(), hit);
        if before < sorted.len() - 1 {
            before
        } else if ahead(by, hit.score, sorted.last().score) {
            sorted.len() - 1
        } else {
            sorted.len() as int
        }
    }
}

/// Hits, the best first.
pub open spec fn ranked(by: By, hits: Seq<HitView>) -> Seq<HitView>
    decreases hits.len(),
{
    if hits.len() == 0 {
        hits
    } else {
        let sorted = ranked(by, hits.drop_last());
        sorted.insert(slot(by, sorted, hits.last()), hits.last())
    }
}

/// A slot is a place, the hit is ahead of what stands there, and of nothing before it.
proof fn lemma_slot(by: By, sorted: Seq<HitView>, hit: HitView)
    ensures
        0 <= slot(by, sorted, hit) <= sorted.len(),
        forall|i: int|
            0 <= i < slot(by, sorted, hit) ==> !ahead(by, hit.score, (#[trigger] sorted[i]).score),
        slot(by, sorted, hit) < sorted.len() ==> ahead(
            by,
            hit.score,
            sorted[slot(by, sorted, hit)].score,
        ),
    decreases sorted.len(),
{
    if sorted.len() > 0 {
        let rest = sorted.drop_last();
        lemma_slot(by, rest, hit);
        assert forall|i: int| 0 <= i < slot(by, sorted, hit) implies !ahead(
            by,
            hit.score,
            (#[trigger] sorted[i]).score,
        ) by {
            if i < rest.len() {
                assert(rest[i] == sorted[i]);
            }
        }
    }
}

/// A place that the hit is ahead of, and of nothing before it, is its slot.
proof fn lemma_slot_unique(by: By, sorted: Seq<HitView>, hit: HitView, at: int)
    requires
        0 <= at <= sorted.len(),
        forall|i: int| 0 <= i < at ==> !ahead(by, hit.score, (#[trigger] sorted[i]).score),
        at < sorted.len() ==> ahead(by, hit.score, sorted[at].score),
    ensures
        at == slot(by, sorted, hit),
{
    lemma_slot(by, sorted, hit);
    let s = slot(by, sorted, hit);
    if at < s {
        assert(!ahead(by, hit.score, sorted[at].score));
    }
    if s < at {
        assert(!ahead(by, hit.score, sorted[s].score));
    }
}

proof fn lemma_ranked_len(by: By, hits: Seq<HitView>)
    ensures
        ranked(by, hits).len() == hits.len(),
    decreases hits.len(),
{
    if hits.len() > 0 {
        lemma_ranked_len(by, hits.drop_last());
        lemma_slot(by, ranked(by, hits.drop_last()), hits.last());
    }
}

/// Are these hits such that the order is one? Where numbers are compared, all have to be numbers.
pub open spec fn comparable(by: By, hits: Seq<HitView>) -> bool {
    by is Total || forall|i: int| 0 <= i < hits.len() ==> !nan((#[trigger] hits[i]).score)
}

/// Ranking keeps every hit, and adds none.
pub proof fn law_ranking_keeps_every_hit(by: By, hits: Seq<HitView>)
    ensures
        ranked(by, hits).to_multiset() == hits.to_multiset(),
    decreases hits.len(),
{
    broadcast use vstd::seq_lib::group_to_multiset_ensures;

    if hits.len() > 0 {
        let rest = hits.drop_last();
        law_ranking_keeps_every_hit(by, rest);
        let sorted = ranked(by, rest);
        let at = slot(by, sorted, hits.last());
        lemma_slot(by, sorted, hits.last());
        assert(hits =~= rest.push(hits.last()));
        assert(sorted.insert(at, hits.last()).to_multiset() =~= sorted.to_multiset().insert(
            hits.last(),
        ));
    }
}

/// No hit comes after one that it is ahead of.
pub proof fn law_ranking_descends(by: By, hits: Seq<HitView>, i: int, j: int)
    requires
        comparable(by, hits),
        0 <= i < j < ranked(by, hits).len(),
    ensures
        !ahead(by, ranked(by, hits)[j].score, ranked(by, hits)[i].score),
    decreases hits.len(),
{
    lemma_ranked_len(by, hits);
    if hits.len() > 0 {
        let rest = hits.drop_last();
        let hit = hits.last();
        let sorted = ranked(by, rest);
        let at = slot(by, sorted, hit);
        lemma_slot(by, sorted, hit);
        lemma_ranked_len(by, rest);
        assert(comparable(by, rest));
        let old_i = if i < at {
            i
        } else {
            i - 1
        };
        let old_j = if j < at {
            j
        } else {
            j - 1
        };
        lemma_ranked_comparable(by, rest);
        if i != at && j != at {
            law_ranking_descends(by, rest, old_i, old_j);
        } else if i == at {
            // The hit stands before an old one.
            if at < old_j {
                law_ranking_descends(by, rest, at, old_j);
            }
            assert(ahead(by, hit.score, sorted[at].score));
            assert(!nan(sorted[old_j].score) || by is Total);
        } else {
            assert(!ahead(by, hit.score, sorted[i].score));
        }
    }
}

proof fn lemma_ranked_comparable(by: By, hits: Seq<HitView>)
    requires
        comparable(by, hits),
    ensures
        comparable(by, ranked(by, hits)),
    decreases hits.len(),
{
    if hits.len() > 0 {
        let rest = hits.drop_last();
        assert(comparable(by, rest));
        lemma_ranked_comparable(by, rest);
        let sorted = ranked(by, rest);
        let at = slot(by, sorted, hits.last());
        lemma_slot(by, sorted, hits.last());
        if by is Number {
            assert(!nan(hits[hits.len() - 1].score));
            assert forall|i: int| 0 <= i < ranked(by, hits).len() implies !nan(
                (#[trigger] ranked(by, hits)[i]).score,
            ) by {
                if i < at {
                    assert(ranked(by, hits)[i] == sorted[i]);
                } else if i > at {
                    assert(ranked(by, hits)[i] == sorted[i - 1]);
                }
            }
        }
    }
}

/// Are two scores equals?
pub open spec fn level(by: By, a: Score, b: Score) -> bool {
    match by {
        By::Number => order(a) == order(b),
        By::Total => total(a) == total(b),
    }
}

proof fn lemma_insert_filter(s: Seq<HitView>, at: int, x: HitView, p: spec_fn(HitView) -> bool)
    requires
        0 <= at <= s.len(),
    ensures
        s.insert(at, x).filter(p) == s.take(at).filter(p) + seq![x].filter(p) + s.skip(at).filter(
            p,
        ),
{
    assert(s.insert(at, x) =~= s.take(at) + seq![x] + s.skip(at));
    Seq::filter_distributes_over_add(s.take(at) + seq![x], s.skip(at), p);
    Seq::filter_distributes_over_add(s.take(at), seq![x], p);
}

proof fn lemma_filter_empty(s: Seq<HitView>, p: spec_fn(HitView) -> bool)
    requires
        forall|i: int| 0 <= i < s.len() ==> !p(#[trigger] s[i]),
    ensures
        s.filter(p) == Seq::<HitView>::empty(),
    decreases s.len(),
{
    reveal(Seq::filter);
    if s.len() > 0 {
        assert(!p(s[s.len() - 1]));
        assert forall|i: int| 0 <= i < s.drop_last().len() implies !p(
            #[trigger] s.drop_last()[i],
        ) by {
            assert(s.drop_last()[i] == s[i]);
        }
        lemma_filter_empty(s.drop_last(), p);
    }
}

/// Among equals, the one that came first stays first.
pub proof fn law_ranking_is_stable(by: By, hits: Seq<HitView>, score: Score)
    requires
        comparable(by, hits),
        by is Total || !nan(score),
    ensures
        ranked(by, hits).filter(|h: HitView| level(by, h.score, score)) == hits.filter(
            |h: HitView| level(by, h.score, score),
        ),
    decreases hits.len(),
{
    let p = |h: HitView| level(by, h.score, score);
    if hits.len() > 0 {
        let rest = hits.drop_last();
        let hit = hits.last();
        assert(comparable(by, rest));
        law_ranking_is_stable(by, rest, score);
        let sorted = ranked(by, rest);
        let at = slot(by, sorted, hit);
        lemma_slot(by, sorted, hit);
        lemma_insert_filter(sorted, at, hit, p);
        assert(hits =~= rest + seq![hit]);
        Seq::filter_distributes_over_add(rest, seq![hit], p);
        assert(sorted =~= sorted.take(at) + sorted.skip(at));
        Seq::filter_distributes_over_add(sorted.take(at), sorted.skip(at), p);
        if p(hit) {
            // What stands behind the slot is below the hit, so it is not level with it.
            lemma_ranked_comparable(by, rest);
            assert forall|i: int| 0 <= i < sorted.skip(at).len() implies !p(
                #[trigger] sorted.skip(at)[i],
            ) by {
                assert(sorted.skip(at)[i] == sorted[at + i]);
                assert(ahead(by, hit.score, sorted[at].score));
                if i > 0 {
                    law_ranking_descends(by, rest, at, at + i);
                }
                assert(by is Total || !nan(sorted[at + i].score));
            }
            lemma_filter_empty(sorted.skip(at), p);
        } else {
            assert forall|i: int| 0 <= i < seq![hit].len() implies !p(#[trigger] seq![hit][i]) by {}
            lemma_filter_empty(seq![hit], p);
        }
        assert(ranked(by, hits).filter(p) =~= hits.filter(p));
    } else {
        assert(ranked(by, hits) =~= hits);
    }
}

fn is_ahead(by: &By, a: Score, b: Score) -> (r: bool)
    ensures
        r == ahead(*by, a, b),
{
    match by {
        By::Number => a.is_above(b),
        By::Total => a.total_place() > b.total_place(),
    }
}

/// Ranks hits.
pub fn rank(by: &By, hits: Vec<MemoryHit>) -> (r: Vec<MemoryHit>)
    ensures
        hit_views(r@) == ranked(*by, hit_views(hits@)),
{
    let ghost all = hit_views(hits@);
    let mut out: Vec<MemoryHit> = Vec::new();
    let mut i: usize = 0;
    proof {
        assert(all.take(0) =~= seq![]);
        assert(hit_views(out@) =~= ranked(*by, all.take(0)));
    }
    while i < hits.len()
        invariant
            i <= hits.len(),
            all == hit_views(hits@),
            out.len() == i,
            hit_views(out@) == ranked(*by, all.take(i as int)),
        decreases hits.len() - i,
    {
        let mut at: usize = 0;
        while at < out.len() && !is_ahead(by, hits[i].score, out[at].score)
            invariant
                i < hits.len(),
                at <= out.len(),
                forall|k: int|
                    0 <= k < at ==> !ahead(*by, hits@[i as int].score, (#[trigger] out@[k]).score),
            decreases out.len() - at,
        {
            at += 1;
        }
        let hit = hits[i].copy();
        let ghost before = out@;
        let ghost v = hit@;
        proof {
            assert(all.take(i + 1).drop_last() =~= all.take(i as int));
            assert(all.take(i + 1).last() == all[i as int]);
            let sorted = hit_views(out@);
            assert forall|k: int| 0 <= k < at implies !ahead(
                *by,
                v.score,
                (#[trigger] sorted[k]).score,
            ) by {
                assert(sorted[k] == out@[k]@);
            }
            lemma_slot_unique(*by, sorted, v, at as int);
        }
        out.insert(at, hit);
        i += 1;
        proof {
            assert(hit_views(out@) =~= hit_views(before).insert(at as int, v));
        }
    }
    proof {
        assert(all.take(all.len() as int) =~= all);
    }
    out
}

// ── Keeping the best ─────────────────────────────────────────────────────────────────

/// The first `k` of a sequence.
pub open spec fn top(hits: Seq<HitView>, k: nat) -> Seq<HitView> {
    if k < hits.len() {
        hits.take(k as int)
    } else {
        hits
    }
}

/// Keeps the first `k` hits.
pub fn truncate(hits: Vec<MemoryHit>, k: usize) -> (r: Vec<MemoryHit>)
    ensures
        hit_views(r@) == top(hit_views(hits@), k as nat),
{
    let mut hits = hits;
    let ghost before = hits@;
    if k < hits.len() {
        hits.truncate(k);
        proof {
            assert(hit_views(hits@) =~= hit_views(before).take(k as int));
        }
    }
    hits
}

/// Is a hit similar enough? One that no vector was compared for is not held to the floor.
pub open spec fn similar_enough(h: HitView, floor: Option<Score>) -> bool {
    match (floor, h.similarity) {
        (Some(f), Some(s)) => at_least(s, f),
        _ => true,
    }
}

/// What a search has found, similar enough, and the best first.
pub open spec fn settled(scored: Seq<HitView>, floor: Option<Score>) -> Seq<HitView> {
    ranked(By::Number, scored.filter(|h: HitView| similar_enough(h, floor)))
}

/// A floor under the similarity takes out exactly the hits that have one below it: what was found
/// by its words alone stays.
pub proof fn law_floors_spare_what_words_found(scored: Seq<HitView>, floor: Option<Score>, h: HitView)
    ensures
        settled(scored, floor).contains(h) <==> scored.contains(h) && similar_enough(h, floor),
        h.similarity is None ==> similar_enough(h, floor),
{
    broadcast use vstd::seq_lib::group_to_multiset_ensures;

    let p = |h: HitView| similar_enough(h, floor);
    let kept = scored.filter(p);
    law_ranking_keeps_every_hit(By::Number, kept);
    let r = ranked(By::Number, kept);
    assert(r.contains(h) <==> r.to_multiset().count(h) > 0);
    assert(kept.contains(h) <==> kept.to_multiset().count(h) > 0);
    if scored.contains(h) && p(h) {
        let k = choose|k: int| 0 <= k < scored.len() && scored[k] == h;
        scored.lemma_filter_contains(p, k);
    }
    if kept.contains(h) {
        let k = choose|k: int| 0 <= k < kept.len() && kept[k] == h;
        scored.lemma_filter_pred(p, k);
        scored.lemma_filter_contains_rev(p, h);
    }
}

/// Drops what is not similar enough, and ranks the rest.
pub fn settle(scored: Vec<MemoryHit>, floor: Option<Score>) -> (r: Vec<MemoryHit>)
    ensures
        hit_views(r@) == settled(hit_views(scored@), floor),
{
    let ghost all = hit_views(scored@);
    let ghost p = |h: HitView| similar_enough(h, floor);
    let mut kept: Vec<MemoryHit> = Vec::new();
    let mut i: usize = 0;
    proof {
        lemma_filter_none(all, p);
        assert(hit_views(kept@) =~= all.take(0).filter(p));
    }
    while i < scored.len()
        invariant
            i <= scored.len(),
            all == hit_views(scored@),
            p == |h: HitView| similar_enough(h, floor),
            hit_views(kept@) == all.take(i as int).filter(p),
        decreases scored.len() - i,
    {
        let ghost before = kept@;
        proof {
            lemma_filter_take(all, p, i as int);
            assert(all[i as int] == scored@[i as int]@);
        }
        let ok = match (floor, scored[i].similarity) {
            (Some(f), Some(s)) => s.is_at_least(f),
            _ => true,
        };
        if ok {
            kept.push(scored[i].copy());
            proof {
                assert(hit_views(kept@) =~= hit_views(before).push(all[i as int]));
            }
        }
        i += 1;
    }
    proof {
        assert(all.take(all.len() as int) =~= all);
    }
    rank(&By::Number, kept)
}

/// Hits with other scores.
pub open spec fn rescored(hits: Seq<HitView>, scores: Seq<Score>) -> Seq<HitView> {
    Seq::new(hits.len(), |i: int| HitView { score: scores[i], ..hits[i] })
}

/// What a second look makes of ranked hits: a new ranking, where it gave a score for each, and the
/// old one otherwise.
pub open spec fn second_look(hits: Seq<HitView>, scores: Option<Seq<Score>>) -> Seq<HitView> {
    match scores {
        Some(s) if s.len() == hits.len() => ranked(By::Number, rescored(hits, s)),
        _ => hits,
    }
}

/// Applies the scores of a second look. None, or too few, or too many, leave the ranking as it is.
pub fn rerank(hits: Vec<MemoryHit>, scores: Option<Vec<Score>>) -> (r: Vec<MemoryHit>)
    ensures
        hit_views(r@) == second_look(
            hit_views(hits@),
            match scores {
                Some(s) => Some(s@),
                None => None,
            },
        ),
{
    match scores {
        Some(s) if s.len() == hits.len() => {
            let ghost all = rescored(hit_views(hits@), s@);
            let mut out: Vec<MemoryHit> = Vec::new();
            let mut i: usize = 0;
            proof {
                assert(hit_views(out@) =~= all.take(0));
            }
            while i < hits.len()
                invariant
                    i <= hits.len(),
                    s.len() == hits.len(),
                    all == rescored(hit_views(hits@), s@),
                    hit_views(out@) == all.take(i as int),
                decreases hits.len() - i,
            {
                let ghost before = out@;
                let mut hit = hits[i].copy();
                hit.score = s[i];
                proof {
                    assert(hit@ == all[i as int]);
                }
                out.push(hit);
                i += 1;
                proof {
                    assert(hit_views(out@) =~= hit_views(before).push(all[i - 1]));
                    assert(all.take(i as int) =~= all.take(i - 1).push(all[i - 1]));
                }
            }
            proof {
                assert(all.take(all.len() as int) =~= all);
            }
            rank(&By::Number, out)
        },
        _ => hits,
    }
}

// ── Shared memories ──────────────────────────────────────────────────────────────────

/// The scope in which the memories of a user are read that were shared: the same tenant's.
pub fn grantor_scope(scope: &MemoryScope, grantor: String) -> (r: MemoryScope)
    ensures
        r@ == (ScopeView {
            tenant_id: scope@.tenant_id,
            user_id: Some(grantor@),
            agent_id: None,
            session_id: None,
        }),
{
    MemoryScope {
        tenant_id: scope.tenant_id.clone(),
        user_id: Some(grantor),
        agent_id: None,
        session_id: None,
    }
}

/// Where a memory stands among hits, or the end.
pub open spec fn place(hits: Seq<HitView>, id: u128) -> int
    decreases hits.len(),
{
    if hits.len() == 0 || hits[0].memory.id == id {
        0
    } else {
        1 + place(hits.drop_first(), id)
    }
}

/// Hits, each memory once: the first hit of it, with the best score of all.
pub open spec fn best_of_each(hits: Seq<HitView>) -> Seq<HitView>
    decreases hits.len(),
{
    if hits.len() == 0 {
        hits
    } else {
        let before = best_of_each(hits.drop_last());
        let hit = hits.last();
        let at = place(before, hit.memory.id);
        if at >= before.len() {
            before.push(hit)
        } else if above(hit.score, before[at].score) {
            before.update(at, HitView { score: hit.score, ..before[at] })
        } else {
            before
        }
    }
}

proof fn lemma_place(hits: Seq<HitView>, id: u128)
    ensures
        0 <= place(hits, id) <= hits.len(),
        place(hits, id) < hits.len() ==> hits[place(hits, id)].memory.id == id,
        forall|i: int| 0 <= i < place(hits, id) ==> (#[trigger] hits[i]).memory.id != id,
    decreases hits.len(),
{
    if hits.len() > 0 && hits[0].memory.id != id {
        let rest = hits.drop_first();
        lemma_place(rest, id);
        assert forall|i: int| 0 <= i < place(hits, id) implies (#[trigger] hits[i]).memory.id
            != id by {
            if i > 0 {
                assert(rest[i - 1] == hits[i]);
            }
        }
    }
}

/// Each memory is there once.
pub proof fn law_shared_hits_are_distinct(hits: Seq<HitView>, i: int, j: int)
    requires
        0 <= i < j < best_of_each(hits).len(),
    ensures
        best_of_each(hits)[i].memory.id != best_of_each(hits)[j].memory.id,
    decreases hits.len(),
{
    let rest = hits.drop_last();
    let before = best_of_each(rest);
    lemma_place(before, hits.last().memory.id);
    if j < before.len() {
        law_shared_hits_are_distinct(rest, i, j);
    }
}

/// No memory is lost: every hit is there, with its score or a better one.
pub proof fn law_shared_hits_keep_the_best(hits: Seq<HitView>, i: int)
    requires
        0 <= i < hits.len(),
    ensures
        exists|j: int|
            0 <= j < best_of_each(hits).len() && (#[trigger] best_of_each(hits)[j]).memory.id
                == hits[i].memory.id && !above(hits[i].score, best_of_each(hits)[j].score),
    decreases hits.len(),
{
    let rest = hits.drop_last();
    let before = best_of_each(rest);
    let all = best_of_each(hits);
    let last = hits.last();
    lemma_place(before, last.memory.id);
    let at = place(before, last.memory.id);
    if i == hits.len() - 1 {
        if at >= before.len() {
            assert(all[before.len() as int] == last);
        } else {
            assert(all[at].memory.id == last.memory.id);
        }
    } else {
        law_shared_hits_keep_the_best(rest, i);
        let j = choose|j: int|
            0 <= j < before.len() && (#[trigger] before[j]).memory.id == rest[i].memory.id
                && !above(rest[i].score, before[j].score);
        assert(all[j].memory.id == hits[i].memory.id);
    }
}

fn find_place(hits: &Vec<MemoryHit>, id: u128) -> (r: usize)
    ensures
        r == place(hit_views(hits@), id),
{
    let ghost all = hit_views(hits@);
    let mut i: usize = 0;
    proof {
        assert(all.skip(0) =~= all);
    }
    while i < hits.len() && hits[i].memory.id != id
        invariant
            i <= hits.len(),
            all == hit_views(hits@),
            i + place(all.skip(i as int), id) == place(all, id),
        decreases hits.len() - i,
    {
        proof {
            assert(all.skip(i as int)[0] == hits@[i as int]@);
            assert(all.skip(i as int).drop_first() =~= all.skip(i + 1));
        }
        i += 1;
    }
    proof {
        if i < hits.len() {
            assert(all.skip(i as int)[0] == hits@[i as int]@);
        }
    }
    i
}

/// Merges the hits of several scopes: each memory once, the best first, at most `k`.
pub fn merge_shared(hits: Vec<MemoryHit>, k: usize) -> (r: Vec<MemoryHit>)
    ensures
        hit_views(r@) == top(ranked(By::Total, best_of_each(hit_views(hits@))), k as nat),
{
    let ghost all = hit_views(hits@);
    let mut best: Vec<MemoryHit> = Vec::new();
    let mut i: usize = 0;
    proof {
        assert(all.take(0) =~= seq![]);
        assert(hit_views(best@) =~= best_of_each(all.take(0)));
    }
    while i < hits.len()
        invariant
            i <= hits.len(),
            all == hit_views(hits@),
            hit_views(best@) == best_of_each(all.take(i as int)),
        decreases hits.len() - i,
    {
        let ghost before = best@;
        proof {
            assert(all.take(i + 1).drop_last() =~= all.take(i as int));
            assert(all.take(i + 1).last() == hits@[i as int]@);
            lemma_place(hit_views(best@), hits@[i as int].memory.id);
        }
        let at: usize = find_place(&best, hits[i].memory.id);
        if at >= best.len() {
            best.push(hits[i].copy());
            proof {
                assert(hit_views(best@) =~= hit_views(before).push(hits@[i as int]@));
            }
        } else if hits[i].score.is_above(best[at].score) {
            let mut hit = best[at].copy();
            hit.score = hits[i].score;
            let ghost v = hit@;
            best.set(at, hit);
            proof {
                assert(hit_views(best@) =~= hit_views(before).update(at as int, v));
            }
        }
        i += 1;
    }
    proof {
        assert(all.take(all.len() as int) =~= all);
    }
    truncate(rank(&By::Total, best), k)
}

} // verus!
