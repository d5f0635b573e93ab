//! What a walk through the graph brings back: everything near enough, and nothing from further away.

use vstd::prelude::*;

use crate::engine::apply::EdgeView;
use crate::engine::graph::{
    as_it_was, came_to, gone_over, law_walks_are_sound, law_walks_start_sound, link_of, over, sound,
    stepped, there_at, turned, walk_from, went_over, went_over_all, WalkView,
};
use crate::text::listed;

verus! {

// ── Looking back ─────────────────────────────────────────────────────────────────────

/// The graph as it was at an instant has exactly the edges that had begun by then and had not ended;
/// without an instant it has all of them.
pub proof fn law_the_past_has_the_edges_of_its_time(
    edges: Seq<EdgeView>,
    as_of: Option<i128>,
    e: EdgeView,
)
    ensures
        as_it_was(edges, as_of).contains(e) <==> edges.contains(e) && (as_of is Some ==> {
            &&& e.valid_from is Some ==> e.valid_from->0 <= as_of->0
            &&& e.valid_to is Some ==> as_of->0 < e.valid_to->0
        }),
        as_of is None ==> as_it_was(edges, as_of) == edges,
{
    if let Some(t) = as_of {
        let p = |e: EdgeView| there_at(e, t);
        let kept = edges.filter(p);
        if kept.contains(e) {
            let k = choose|k: int| 0 <= k < kept.len() && kept[k] == e;
            edges.lemma_filter_pred(p, k);
            edges.lemma_filter_contains_rev(p, e);
        }
        if edges.contains(e) && p(e) {
            let k = choose|k: int| 0 <= k < edges.len() && edges[k] == e;
            edges.lemma_filter_contains(p, k);
        }
    }
}

/// A link says what was linked, by which relation and on whose word, and it is there from the
/// instant on at which it was made.
pub proof fn law_links_say_what_was_linked(
    id: u128,
    src: Seq<char>,
    relation: Seq<char>,
    dst: Seq<char>,
    source: Option<u128>,
    at: i128,
    t: i128,
)
    ensures
        ({
            let e = link_of(id, src, relation, dst, source, at);
            &&& e.id == id && e.src == src && e.relation == relation && e.dst == dst
            &&& e.source_memory_id == source
            &&& e.weight.bits == 0x3f80_0000
            &&& there_at(e, t) <==> t >= at
        }),
{
}

// ── A whole walk ─────────────────────────────────────────────────────────────────────

/// The walk after at most `n` steps. `near` is what the graph answers: the edges at an entity.
pub open spec fn after_steps(
    w: WalkView,
    near: spec_fn(Seq<char>) -> Seq<EdgeView>,
    n: nat,
) -> WalkView
    decreases n,
{
    if n == 0 {
        w
    } else {
        let before = after_steps(w, near, (n - 1) as nat);
        if over(before) {
            before
        } else {
            stepped(before, near(before.todo[0]))
        }
    }
}

/// Is there an edge at `y` that has `x` at one of its ends?
pub open spec fn joined_by_an_edge(
    near: spec_fn(Seq<char>) -> Seq<EdgeView>,
    y: Seq<char>,
    x: Seq<char>,
) -> bool {
    exists|i: int|
        0 <= i < near(y).len() && ((#[trigger] near(y)[i]).src == x || near(y)[i].dst == x)
}

/// Is `x` within so many hops of the start, over edges in either direction?
pub open spec fn within(
    near: spec_fn(Seq<char>) -> Seq<EdgeView>,
    start: Seq<char>,
    x: Seq<char>,
    hops: nat,
) -> bool
    decreases hops,
{
    if hops == 0 {
        x == start
    } else {
        within(near, start, x, (hops - 1) as nat) || exists|y: Seq<char>|
            within(near, start, y, (hops - 1) as nat) && #[trigger] joined_by_an_edge(near, y, x)
    }
}

/// An id stands for one edge, whichever end it is asked for at.
pub open spec fn ids_name_edges(near: spec_fn(Seq<char>) -> Seq<EdgeView>) -> bool {
    forall|x: Seq<char>, y: Seq<char>, i: int, j: int|
        0 <= i < near(x).len() && 0 <= j < near(y).len() && (#[trigger] near(x)[i]).id == (
        #[trigger] near(y)[j]).id ==> near(x)[i] == near(y)[j]
}

/// Were all edges at an entity gone over?
spec fn settled(w: WalkView, near: spec_fn(Seq<char>) -> Seq<EdgeView>, x: Seq<char>) -> bool {
    forall|i: int| 0 <= i < near(x).len() ==> w.edges.contains(#[trigger] near(x)[i])
}

/// What a walk that is below its cap has done when it is `k` hops out.
spec fn thorough(
    w: WalkView,
    near: spec_fn(Seq<char>) -> Seq<EdgeView>,
    start: Seq<char>,
    k: nat,
) -> bool {
    &&& forall|x: Seq<char>| #[trigger]
        listed(w.seen, x) ==> listed(w.todo, x) || listed(w.next, x) || settled(w, near, x)
    &&& forall|x: Seq<char>| #[trigger]
        within(near, start, x, k) ==> listed(w.todo, x) || settled(w, near, x)
    &&& w.todo.len() == 0 ==> w.next.len() == 0 || w.rounds <= 1
    &&& listed(w.seen, start)
}

/// Is an edge at an entity that is within so many hops of the start?
pub open spec fn near_an_entity(
    near: spec_fn(Seq<char>) -> Seq<EdgeView>,
    start: Seq<char>,
    e: EdgeView,
    hops: nat,
) -> bool {
    exists|x: Seq<char>| #[trigger] within(near, start, x, hops) && near(x).contains(e)
}

/// Nothing of a walk is further away than it has come.
spec fn near_enough(
    w: WalkView,
    near: spec_fn(Seq<char>) -> Seq<EdgeView>,
    start: Seq<char>,
    k: nat,
) -> bool {
    &&& forall|i: int| 0 <= i < w.todo.len() ==> within(near, start, #[trigger] w.todo[i], k)
    &&& forall|i: int|
        0 <= i < w.next.len() ==> within(near, start, #[trigger] w.next[i], k + 1)
    &&& forall|i: int|
        0 <= i < w.edges.len() ==> near_an_entity(near, start, #[trigger] w.edges[i], k)
}

proof fn lemma_within_grows(
    near: spec_fn(Seq<char>) -> Seq<EdgeView>,
    start: Seq<char>,
    x: Seq<char>,
    a: nat,
    b: nat,
)
    requires
        a <= b,
        within(near, start, x, a),
    ensures
        within(near, start, x, b),
    decreases b - a,
{
    if a < b {
        lemma_within_grows(near, start, x, a, (b - 1) as nat);
    }
}

/// Going over edges only adds: to the edges, to what was seen, and to the next round.
proof fn lemma_went_over_adds(w: WalkView, e: EdgeView)
    ensures
        ({
            let a = went_over(w, e);
            &&& w.edges.is_prefix_of(a.edges)
            &&& w.seen.is_prefix_of(a.seen)
            &&& w.next.is_prefix_of(a.next)
            &&& a.todo == w.todo && a.cap == w.cap && a.rounds == w.rounds
            &&& a.edges.len() < a.cap ==> gone_over(a.edges, e.id)
            &&& forall|x: Seq<char>| #[trigger]
                listed(a.seen, x) ==> listed(w.seen, x) || listed(a.next, x)
            &&& forall|x: Seq<char>| #[trigger]
                listed(a.next, x) ==> listed(w.next, x) || x == e.src || x == e.dst
            &&& forall|d: EdgeView| #[trigger]
                a.edges.contains(d) ==> w.edges.contains(d) || d == e
        }),
{
    let a = went_over(w, e);
    let one = came_to(w, e.src);
    let two = came_to(one, e.dst);
    if w.edges.len() < w.cap && !gone_over(w.edges, e.id) {
        assert(a.edges[w.edges.len() as int].id == e.id);
        assert forall|x: Seq<char>| #[trigger] listed(one.seen, x) implies listed(w.seen, x)
            || listed(one.next, x) by {
            lemma_pushed(w.seen, e.src, x);
            lemma_pushed(w.next, e.src, x);
        }
        assert forall|x: Seq<char>| #[trigger] listed(a.seen, x) implies listed(w.seen, x)
            || listed(a.next, x) by {
            lemma_pushed(one.seen, e.dst, x);
            lemma_pushed(one.next, e.dst, x);
            assert(listed(one.seen, x) || x == e.dst);
        }
        assert forall|x: Seq<char>| #[trigger] listed(a.next, x) implies listed(w.next, x) || x
            == e.src || x == e.dst by {
            lemma_pushed(w.next, e.src, x);
            lemma_pushed(one.next, e.dst, x);
        }
        assert forall|d: EdgeView| #[trigger] a.edges.contains(d) implies w.edges.contains(d) || d
            == e by {
            let k = choose|k: int| 0 <= k < a.edges.len() && a.edges[k] == d;
            assert(k == w.edges.len() || w.edges[k] == d);
        }
    }
}

proof fn lemma_pushed(s: Seq<Seq<char>>, x: Seq<char>, y: Seq<char>)
    ensures
        listed(s.push(x), y) <==> listed(s, y) || y == x,
{
    if listed(s, y) {
        let i = choose|i: int| 0 <= i < s.len() && s[i] == y;
        assert(s.push(x)[i] == y);
    }
    if listed(s.push(x), y) {
        let i = choose|i: int| 0 <= i < s.push(x).len() && s.push(x)[i] == y;
        assert(i == s.len() || s[i] == y);
    }
    assert(s.push(x)[s.len() as int] == x);
}

proof fn lemma_prefix_has<T>(a: Seq<T>, b: Seq<T>, x: T)
    requires
        a.is_prefix_of(b),
        a.contains(x),
    ensures
        b.contains(x),
{
    let i = choose|i: int| 0 <= i < a.len() && a[i] == x;
    assert(b[i] == x);
}

/// Going over the edges at an entity below the cap leaves none of them out.
proof fn lemma_went_over_all_adds(w: WalkView, es: Seq<EdgeView>)
    ensures
        ({
            let a = went_over_all(w, es);
            &&& w.edges.is_prefix_of(a.edges)
            &&& w.seen.is_prefix_of(a.seen)
            &&& w.next.is_prefix_of(a.next)
            &&& a.todo == w.todo && a.cap == w.cap && a.rounds == w.rounds
            &&& a.edges.len() < a.cap ==> forall|i: int|
                0 <= i < es.len() ==> gone_over(a.edges, (#[trigger] es[i]).id)
            &&& forall|x: Seq<char>| #[trigger]
                listed(a.seen, x) ==> listed(w.seen, x) || listed(a.next, x)
            &&& forall|x: Seq<char>| #[trigger]
                listed(a.next, x) ==> listed(w.next, x) || exists|i: int|
                    0 <= i < es.len() && ((#[trigger] es[i]).src == x || es[i].dst == x)
            &&& forall|d: EdgeView| #[trigger]
                a.edges.contains(d) ==> w.edges.contains(d) || es.contains(d)
        }),
    decreases es.len(),
{
    if es.len() > 0 {
        let rest = es.drop_last();
        let e = es.last();
        let n = es.len() - 1;
        lemma_went_over_all_adds(w, rest);
        let b = went_over_all(w, rest);
        let a = went_over_all(w, es);
        lemma_went_over_adds(b, e);
        assert(es[n] == e);
        if a.edges.len() < a.cap {
            assert forall|i: int| 0 <= i < es.len() implies gone_over(
                a.edges,
                (#[trigger] es[i]).id,
            ) by {
                if i < n {
                    assert(rest[i] == es[i]);
                    let k = choose|k: int|
                        0 <= k < b.edges.len() && (#[trigger] b.edges[k]).id == rest[i].id;
                    assert(a.edges[k].id == es[i].id);
                }
            }
        }
        assert forall|x: Seq<char>| #[trigger] listed(a.seen, x) implies listed(w.seen, x)
            || listed(a.next, x) by {
            if listed(b.seen, x) && listed(b.next, x) {
                lemma_prefix_has(b.next, a.next, x);
            }
        }
        assert forall|x: Seq<char>| #[trigger] listed(a.next, x) implies listed(w.next, x)
            || exists|i: int|
            0 <= i < es.len() && ((#[trigger] es[i]).src == x || es[i].dst == x) by {
            if listed(b.next, x) && !listed(w.next, x) {
                let i = choose|i: int|
                    0 <= i < rest.len() && ((#[trigger] rest[i]).src == x || rest[i].dst == x);
                assert(es[i] == rest[i]);
            }
        }
        assert forall|d: EdgeView| #[trigger] a.edges.contains(d) implies w.edges.contains(d)
            || es.contains(d) by {
            if b.edges.contains(d) && rest.contains(d) {
                let i = choose|i: int| 0 <= i < rest.len() && rest[i] == d;
                assert(es[i] == d);
            }
        }
    }
}

/// The edges that were gone over are edges of the graph.
proof fn lemma_gone_over_is_there(
    w: WalkView,
    near: spec_fn(Seq<char>) -> Seq<EdgeView>,
    start: Seq<char>,
    k: nat,
    x: Seq<char>,
    i: int,
)
    requires
        near_enough(w, near, start, k),
        ids_name_edges(near),
        0 <= i < near(x).len(),
        gone_over(w.edges, near(x)[i].id),
    ensures
        w.edges.contains(near(x)[i]),
{
    let e = near(x)[i];
    let j = choose|j: int| 0 <= j < w.edges.len() && (#[trigger] w.edges[j]).id == e.id;
    assert(near_an_entity(near, start, w.edges[j], k));
    let y = choose|y: Seq<char>| #[trigger]
        within(near, start, y, k) && near(y).contains(w.edges[j]);
    let m = choose|m: int| 0 <= m < near(y).len() && #[trigger] near(y)[m] == w.edges[j];
    assert(near(y)[m].id == near(x)[i].id);
}

/// One step keeps a walk near enough.
proof fn lemma_step_is_near_enough(
    w: WalkView,
    near: spec_fn(Seq<char>) -> Seq<EdgeView>,
    start: Seq<char>,
    k: nat,
)
    requires
        !over(w),
        near_enough(w, near, start, k),
    ensures
        ({
            let a = stepped(w, near(w.todo[0]));
            near_enough(
                a,
                near,
                start,
                if a.rounds < w.rounds {
                    k + 1
                } else {
                    k
                },
            )
        }),
        near_enough(
            WalkView { todo: w.todo.drop_first(), ..went_over_all(w, near(w.todo[0])) },
            near,
            start,
            k,
        ),
{
    let y = w.todo[0];
    let es = near(y);
    let there = went_over_all(w, es);
    lemma_went_over_all_adds(w, es);
    let on = WalkView { todo: w.todo.drop_first(), ..there };
    assert(within(near, start, y, k));
    assert forall|i: int| 0 <= i < on.todo.len() implies within(
        near,
        start,
        #[trigger] on.todo[i],
        k,
    ) by {
        assert(on.todo[i] == w.todo[i + 1]);
    }
    assert forall|i: int| 0 <= i < on.next.len() implies within(
        near,
        start,
        #[trigger] on.next[i],
        k + 1,
    ) by {
        let x = on.next[i];
        assert(listed(on.next, x));
        if listed(w.next, x) {
            let j = choose|j: int| 0 <= j < w.next.len() && w.next[j] == x;
            assert(within(near, start, w.next[j], k + 1));
        } else {
            assert(joined_by_an_edge(near, y, x));
        }
    }
    assert forall|i: int| 0 <= i < on.edges.len() implies near_an_entity(
        near,
        start,
        #[trigger] on.edges[i],
        k,
    ) by {
        let d = on.edges[i];
        assert(there.edges.contains(d));
        if w.edges.contains(d) {
            let j = choose|j: int| 0 <= j < w.edges.len() && w.edges[j] == d;
            assert(near_an_entity(near, start, w.edges[j], k));
        } else {
            assert(near(y).contains(d));
        }
    }
    assert(near_enough(on, near, start, k));
    let a = turned(on);
    if a.rounds < w.rounds {
        assert forall|i: int| 0 <= i < a.edges.len() implies near_an_entity(
            near,
            start,
            #[trigger] a.edges[i],
            k + 1,
        ) by {
            assert(near_an_entity(near, start, on.edges[i], k));
            let x = choose|x: Seq<char>| #[trigger]
                within(near, start, x, k) && near(x).contains(on.edges[i]);
            lemma_within_grows(near, start, x, k, k + 1);
        }
    }
}

/// One step that stays below the cap keeps a walk thorough.
proof fn lemma_step_is_thorough(
    w: WalkView,
    near: spec_fn(Seq<char>) -> Seq<EdgeView>,
    start: Seq<char>,
    k: nat,
)
    requires
        !over(w),
        sound(w),
        ids_name_edges(near),
        near_enough(w, near, start, k),
        thorough(w, near, start, k),
        stepped(w, near(w.todo[0])).edges.len() < w.cap,
    ensures
        ({
            let a = stepped(w, near(w.todo[0]));
            thorough(
                a,
                near,
                start,
                if a.rounds < w.rounds {
                    k + 1
                } else {
                    k
                },
            )
        }),
{
    let y = w.todo[0];
    let es = near(y);
    let there = went_over_all(w, es);
    lemma_went_over_all_adds(w, es);
    let on = WalkView { todo: w.todo.drop_first(), ..there };
    lemma_step_is_near_enough(w, near, start, k);
    assert(settled(on, near, y)) by {
        assert forall|i: int| 0 <= i < near(y).len() implies on.edges.contains(
            #[trigger] near(y)[i],
        ) by {
            assert(gone_over(on.edges, es[i].id));
            lemma_gone_over_is_there(on, near, start, k, y, i);
        }
    }
    assert forall|x: Seq<char>| settled(w, near, x) implies settled(on, near, x) by {
        assert forall|i: int| 0 <= i < near(x).len() implies on.edges.contains(
            #[trigger] near(x)[i],
        ) by {
            lemma_prefix_has(w.edges, on.edges, near(x)[i]);
        }
    }
    assert forall|x: Seq<char>| listed(w.todo, x) && x != y implies #[trigger] listed(
        on.todo,
        x,
    ) by {
        let i = choose|i: int| 0 <= i < w.todo.len() && w.todo[i] == x;
        assert(on.todo[i - 1] == x);
    }
    assert forall|x: Seq<char>| #[trigger] listed(on.seen, x) implies listed(on.todo, x) || listed(
        on.next,
        x,
    ) || settled(on, near, x) by {
        if listed(w.seen, x) {
            if listed(w.next, x) {
                lemma_prefix_has(w.next, on.next, x);
            }
        }
    }
    assert forall|x: Seq<char>| #[trigger] within(near, start, x, k) implies listed(on.todo, x)
        || settled(on, near, x) by {}
    lemma_prefix_has(w.seen, on.seen, start);
    let a = turned(on);
    if a.rounds < w.rounds {
        assert(on.todo.len() == 0);
        assert(sound(stepped(w, es))) by {
            law_walks_are_sound(w, es);
        }
        assert forall|x: Seq<char>| settled(on, near, x) implies settled(a, near, x) by {
            assert forall|i: int| 0 <= i < near(x).len() implies a.edges.contains(
                #[trigger] near(x)[i],
            ) by {}
        }
        assert forall|x: Seq<char>| #[trigger] listed(a.seen, x) implies listed(a.todo, x)
            || listed(a.next, x) || settled(a, near, x) by {
            assert(listed(on.seen, x));
            assert(!listed(on.todo, x));
        }
        assert forall|x: Seq<char>| #[trigger] within(near, start, x, k + 1) implies listed(
            a.todo,
            x,
        ) || settled(a, near, x) by {
            if within(near, start, x, k) {
                assert(!listed(on.todo, x));
            } else {
                let z = choose|z: Seq<char>|
                    within(near, start, z, k) && #[trigger] joined_by_an_edge(near, z, x);
                assert(!listed(on.todo, z));
                assert(settled(on, near, z));
                let i = choose|i: int|
                    0 <= i < near(z).len() && ((#[trigger] near(z)[i]).src == x || near(z)[i].dst
                        == x);
                assert(a.edges.contains(near(z)[i]));
                let j = choose|j: int| 0 <= j < a.edges.len() && a.edges[j] == near(z)[i];
                assert(listed(a.seen, a.edges[j].src) && listed(a.seen, a.edges[j].dst));
                assert(listed(a.seen, x));
            }
        }
    }
}

/// How far out a walk is after so many steps.
spec fn hops_out(w: WalkView, near: spec_fn(Seq<char>) -> Seq<EdgeView>, n: nat) -> int {
    w.rounds - after_steps(w, near, n).rounds
}

proof fn lemma_walk(
    entity: Seq<char>,
    depth: nat,
    max_edges: nat,
    max_rows: nat,
    near: spec_fn(Seq<char>) -> Seq<EdgeView>,
    n: nat,
)
    ensures
        ({
            let w = walk_from(entity, depth, max_edges, max_rows);
            let a = after_steps(w, near, n);
            let k = hops_out(w, near, n);
            &&& sound(a)
            &&& a.cap == w.cap
            &&& 1 <= a.rounds <= w.rounds
            &&& near_enough(a, near, entity, k as nat)
            &&& ids_name_edges(near) && a.edges.len() < a.cap ==> thorough(
                a,
                near,
                entity,
                k as nat,
            )
        }),
    decreases n,
{
    let w = walk_from(entity, depth, max_edges, max_rows);
    if n == 0 {
        law_walks_start_sound(entity, depth, max_edges, max_rows);
        assert(w.todo[0] == entity);
        assert(listed(w.todo, entity));
        assert(listed(w.seen, entity));
        assert forall|x: Seq<char>| #[trigger] listed(w.seen, x) implies listed(w.todo, x) by {
            assert(x == entity);
        }
    } else {
        let m = (n - 1) as nat;
        lemma_walk(entity, depth, max_edges, max_rows, near, m);
        let b = after_steps(w, near, m);
        let k = hops_out(w, near, m) as nat;
        if !over(b) {
            let es = near(b.todo[0]);
            law_walks_are_sound(b, es);
            lemma_went_over_all_adds(b, es);
            lemma_step_is_near_enough(b, near, entity, k);
            if ids_name_edges(near) && stepped(b, es).edges.len() < b.cap {
                lemma_step_is_thorough(b, near, entity, k);
            }
        }
    }
}

/// A walk comes back with everything that is near enough: where it ends below its cap, it has gone
/// over every edge at an entity that is fewer hops from the start than its depth, whichever end of
/// its edges that entity was come to by.
pub proof fn law_walks_leave_nothing_out(
    entity: Seq<char>,
    depth: nat,
    max_edges: nat,
    max_rows: nat,
    near: spec_fn(Seq<char>) -> Seq<EdgeView>,
    n: nat,
    x: Seq<char>,
    hops: nat,
    i: int,
)
    requires
        ids_name_edges(near),
        ({
            let end = after_steps(walk_from(entity, depth, max_edges, max_rows), near, n);
            over(end) && end.edges.len() < max_edges && end.edges.len() < max_rows
        }),
        hops == 0 || hops < depth,
        within(near, entity, x, hops),
        0 <= i < near(x).len(),
    ensures
        after_steps(walk_from(entity, depth, max_edges, max_rows), near, n).edges.contains(
            near(x)[i],
        ),
{
    let w = walk_from(entity, depth, max_edges, max_rows);
    let a = after_steps(w, near, n);
    let k = hops_out(w, near, n) as nat;
    lemma_walk(entity, depth, max_edges, max_rows, near, n);
    if a.rounds <= 1 {
        lemma_within_grows(near, entity, x, hops, k);
        assert(!listed(a.todo, x));
    } else {
        lemma_all_reached(a, near, entity, k, x, hops);
    }
    assert(settled(a, near, x));
}

/// Where there is nothing left to come to, all that can be reached was reached.
proof fn lemma_all_reached(
    a: WalkView,
    near: spec_fn(Seq<char>) -> Seq<EdgeView>,
    start: Seq<char>,
    k: nat,
    x: Seq<char>,
    hops: nat,
)
    requires
        sound(a),
        thorough(a, near, start, k),
        a.todo.len() == 0,
        a.rounds > 1,
        within(near, start, x, hops),
    ensures
        listed(a.seen, x),
        settled(a, near, x),
    decreases hops,
{
    if hops > 0 {
        let h = (hops - 1) as nat;
        if within(near, start, x, h) {
            lemma_all_reached(a, near, start, k, x, h);
        } else {
            let y = choose|y: Seq<char>|
                within(near, start, y, h) && #[trigger] joined_by_an_edge(near, y, x);
            lemma_all_reached(a, near, start, k, y, h);
            let i = choose|i: int|
                0 <= i < near(y).len() && ((#[trigger] near(y)[i]).src == x || near(y)[i].dst == x);
            assert(a.edges.contains(near(y)[i]));
            let j = choose|j: int| 0 <= j < a.edges.len() && a.edges[j] == near(y)[i];
            assert(listed(a.seen, a.edges[j].src) && listed(a.seen, a.edges[j].dst));
        }
    }
    assert(!listed(a.todo, x) && !listed(a.next, x));
}

/// A walk goes no further than its depth: each edge it comes back with is at an entity that is fewer
/// hops from the start than its depth, or at the start itself. It comes back with no more edges than
/// are wanted, though at least one is, and with none twice.
pub proof fn law_walks_stay_near(
    entity: Seq<char>,
    depth: nat,
    max_edges: nat,
    max_rows: nat,
    near: spec_fn(Seq<char>) -> Seq<EdgeView>,
    n: nat,
    i: int,
)
    requires
        0 <= i < after_steps(
            walk_from(entity, depth, max_edges, max_rows),
            near,
            n,
        ).edges.len(),
    ensures
        ({
            let edges = after_steps(
                walk_from(entity, depth, max_edges, max_rows),
                near,
                n,
            ).edges;
            &&& near_an_entity(
                near,
                entity,
                edges[i],
                if depth == 0 {
                    0
                } else {
                    (depth - 1) as nat
                },
            )
            &&& edges.len() == 1 || (edges.len() <= max_edges && edges.len() <= max_rows)
            &&& forall|a: int, b: int|
                0 <= a < b < edges.len() ==> (#[trigger] edges[a]).id != (#[trigger] edges[b]).id
        }),
{
    let w = walk_from(entity, depth, max_edges, max_rows);
    let a = after_steps(w, near, n);
    let k = hops_out(w, near, n) as nat;
    lemma_walk(entity, depth, max_edges, max_rows, near, n);
    let far: nat = if depth == 0 {
        0
    } else {
        (depth - 1) as nat
    };
    assert(near_an_entity(near, entity, a.edges[i], k));
    let x = choose|x: Seq<char>| #[trigger]
        within(near, entity, x, k) && near(x).contains(a.edges[i]);
    lemma_within_grows(near, entity, x, k, far);
}

} // verus!
