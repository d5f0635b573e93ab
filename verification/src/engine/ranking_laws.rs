//! What comes back of ranked hits, by the numbers that their scores are.

use vstd::prelude::*;

use crate::engine::ranking::{
    best_of_each, law_ranking_descends, law_ranking_keeps_every_hit, law_shared_hits_are_distinct,
    law_shared_hits_keep_the_best, place, ranked, rescored, second_look, settled, top, By,
};
use crate::memory::cognition::HitView;
use crate::score::{above, at_least, larger, nan, order, total, Score};

verus! {

// ── Scores ───────────────────────────────────────────────────────────────────────────

/// The order of scores is that of the numbers: of two without a sign the one with the larger bits is
/// larger, of two with a sign the one with the smaller ones, a sign is below no sign, and the two
/// zeros are one.
pub proof fn law_scores_are_ordered_as_numbers(a: Score, b: Score)
    ensures
        a.bits < b.bits < 0x8000_0000 ==> order(a) < order(b) && total(a) < total(b),
        0x8000_0000 <= a.bits < b.bits ==> order(a) > order(b) && total(a) > total(b),
        a.bits > 0x8000_0000 && b.bits < 0x8000_0000 ==> order(a) < order(b),
        a.bits >= 0x8000_0000 && b.bits < 0x8000_0000 ==> total(a) < total(b),
        a.bits == 0 && b.bits == 0x8000_0000 ==> order(a) == order(b),
        order(a) == order(b) ==> a == b || (a.bits % 0x8000_0000 == 0 && b.bits % 0x8000_0000 == 0),
        a.bits == 0x7fc0_0000 || a.bits == 0xffc0_0000 ==> nan(a),
        a.bits <= 0x7f80_0000 || 0x8000_0000 <= a.bits <= 0xff80_0000 ==> !nan(a),
{
}

/// One score is at least another exactly where both are numbers and it is not below; it is above
/// exactly where it is at least the other and not the other way round. The larger of two is one of
/// them that neither is above, and no number loses to what is none.
pub proof fn law_scores_compare(a: Score, b: Score)
    ensures
        at_least(a, b) <==> !nan(a) && !nan(b) && order(a) >= order(b),
        above(a, b) <==> at_least(a, b) && !at_least(b, a),
        larger(a, b) == a || larger(a, b) == b,
        !above(a, larger(a, b)) && !above(b, larger(a, b)),
        !nan(a) || !nan(b) ==> !nan(larger(a, b)),
{
}

// ── Ranking ──────────────────────────────────────────────────────────────────────────

proof fn lemma_members(hits: Seq<HitView>, by: By, h: HitView)
    ensures
        ranked(by, hits).contains(h) <==> hits.contains(h),
        ranked(by, hits).len() == hits.len(),
{
    broadcast use vstd::seq_lib::group_to_multiset_ensures;

    law_ranking_keeps_every_hit(by, hits);
    let r = ranked(by, hits);
    assert(r.contains(h) <==> r.to_multiset().count(h) > 0);
    assert(hits.contains(h) <==> hits.to_multiset().count(h) > 0);
    assert(r.len() == r.to_multiset().len());
    assert(hits.len() == hits.to_multiset().len());
}

/// The best come first: no hit of a search stands behind one with a lower score.
pub proof fn law_the_best_come_first(scored: Seq<HitView>, floor: Option<Score>, i: int, j: int)
    requires
        forall|k: int| 0 <= k < scored.len() ==> !nan((#[trigger] scored[k]).score),
        0 <= i < j < settled(scored, floor).len(),
    ensures
        order(settled(scored, floor)[i].score) >= order(settled(scored, floor)[j].score),
{
    let p = |h: HitView| crate::engine::ranking::similar_enough(h, floor);
    let kept = scored.filter(p);
    let r = settled(scored, floor);
    assert forall|k: int| 0 <= k < kept.len() implies !nan((#[trigger] kept[k]).score) by {
        scored.lemma_filter_contains_rev(p, kept[k]);
        let m = choose|m: int| 0 <= m < scored.len() && scored[m] == kept[k];
        assert(!nan(scored[m].score));
    }
    law_ranking_descends(By::Number, kept, i, j);
    assert(r.contains(r[i]) && r.contains(r[j]));
    lemma_members(kept, By::Number, r[i]);
    lemma_members(kept, By::Number, r[j]);
    let a = choose|a: int| 0 <= a < kept.len() && kept[a] == r[i];
    let b = choose|b: int| 0 <= b < kept.len() && kept[b] == r[j];
    assert(!nan(kept[a].score) && !nan(kept[b].score));
}

/// A floor takes out a hit exactly where a vector was compared for it and is not as near as the
/// floor asks; without a floor every hit stays.
pub proof fn law_floors_take_out_what_is_too_far(
    scored: Seq<HitView>,
    floor: Option<Score>,
    h: HitView,
)
    ensures
        settled(scored, floor).contains(h) <==> scored.contains(h) && !(floor is Some
            && h.similarity is Some && (nan(floor->0) || nan(h.similarity->0) || order(
            h.similarity->0,
        ) < order(floor->0))),
{
    crate::engine::ranking::law_floors_spare_what_words_found(scored, floor, h);
}

/// As many hits come back as were asked for, or all where there are fewer, and they are the first.
pub proof fn law_the_first_are_kept(hits: Seq<HitView>, k: nat)
    ensures
        top(hits, k).len() == if k < hits.len() {
            k
        } else {
            hits.len()
        },
        top(hits, k).is_prefix_of(hits),
{
}

/// A second look gives each hit its own new score, loses none, and puts the best first. A look that
/// gave none, or not one for each, changes nothing.
pub proof fn law_a_second_look_rescores_every_hit(
    hits: Seq<HitView>,
    scores: Option<Seq<Score>>,
    i: int,
    j: int,
)
    requires
        0 <= i < hits.len(),
        0 <= j < hits.len(),
    ensures
        scores is None || scores->0.len() != hits.len() ==> second_look(hits, scores) == hits,
        scores is Some && scores->0.len() == hits.len() ==> {
            let after = second_look(hits, scores);
            &&& after.len() == hits.len()
            &&& after.contains((HitView { score: scores->0[i], ..hits[i] }))
            &&& (forall|k: int| 0 <= k < hits.len() ==> !nan(#[trigger] scores->0[k])) && i < j
                ==> order(after[i].score) >= order(after[j].score)
        },
{
    if scores is Some && scores->0.len() == hits.len() {
        let s = scores->0;
        let all = rescored(hits, s);
        let after = second_look(hits, scores);
        assert(all[i] == (HitView { score: s[i], ..hits[i] }));
        assert(all.contains(all[i]));
        lemma_members(all, By::Number, all[i]);
        if (forall|k: int| 0 <= k < hits.len() ==> !nan(#[trigger] s[k])) && i < j {
            assert forall|k: int| 0 <= k < all.len() implies !nan((#[trigger] all[k]).score) by {
                assert(!nan(s[k]));
            }
            law_ranking_descends(By::Number, all, i, j);
            assert(after.contains(after[i]) && after.contains(after[j]));
            lemma_members(all, By::Number, after[i]);
            lemma_members(all, By::Number, after[j]);
            let a = choose|a: int| 0 <= a < all.len() && all[a] == after[i];
            let b = choose|b: int| 0 <= b < all.len() && all[b] == after[j];
            assert(!nan(all[a].score) && !nan(all[b].score));
        }
    }
}

// ── Shared memories ──────────────────────────────────────────────────────────────────

proof fn lemma_place_is_one(hits: Seq<HitView>, id: u128)
    ensures
        0 <= place(hits, id) <= hits.len(),
        place(hits, id) < hits.len() ==> hits[place(hits, id)].memory.id == id,
        place(hits, id) >= hits.len() ==> forall|i: int|
            0 <= i < hits.len() ==> (#[trigger] hits[i]).memory.id != id,
    decreases hits.len(),
{
    if hits.len() > 0 && hits[0].memory.id != id {
        let rest = hits.drop_first();
        lemma_place_is_one(rest, id);
        if place(hits, id) >= hits.len() {
            assert forall|i: int| 0 <= i < hits.len() implies (#[trigger] hits[i]).memory.id
                != id by {
                if i > 0 {
                    assert(rest[i - 1] == hits[i]);
                }
            }
        }
    }
}

/// Nothing is made up where scopes are merged: a memory that comes back was found, with that very
/// score, in one of them.
pub proof fn law_shared_scores_were_given(hits: Seq<HitView>, i: int)
    requires
        0 <= i < best_of_each(hits).len(),
    ensures
        exists|j: int|
            0 <= j < hits.len() && (#[trigger] hits[j]).memory == best_of_each(hits)[i].memory,
        exists|j: int|
            0 <= j < hits.len() && (#[trigger] hits[j]).memory.id == best_of_each(
                hits,
            )[i].memory.id && hits[j].score == best_of_each(hits)[i].score,
    decreases hits.len(),
{
    let rest = hits.drop_last();
    let last = hits.last();
    let before = best_of_each(rest);
    let all = best_of_each(hits);
    lemma_place_is_one(before, last.memory.id);
    assert(hits[hits.len() - 1] == last);
    if i < before.len() {
        law_shared_scores_were_given(rest, i);
        let j = choose|j: int|
            0 <= j < rest.len() && (#[trigger] rest[j]).memory == before[i].memory;
        assert(hits[j] == rest[j]);
        let k = choose|k: int|
            0 <= k < rest.len() && (#[trigger] rest[k]).memory.id == before[i].memory.id
                && rest[k].score == before[i].score;
        assert(hits[k] == rest[k]);
    }
}

/// Merged hits come with the best first, each memory once, and with the best of its scores.
pub proof fn law_merged_hits_are_the_best(hits: Seq<HitView>, k: nat, i: int, j: int)
    requires
        0 <= i < j < top(ranked(By::Total, best_of_each(hits)), k).len(),
    ensures
        ({
            let merged = top(ranked(By::Total, best_of_each(hits)), k);
            &&& merged.len() <= k
            &&& total(merged[i].score) >= total(merged[j].score)
            &&& best_of_each(hits).contains(merged[i])
        }),
{
    let best = best_of_each(hits);
    let r = ranked(By::Total, best);
    law_ranking_descends(By::Total, best, i, j);
    assert(r.contains(r[i]));
    lemma_members(best, By::Total, r[i]);
}

} // verus!
