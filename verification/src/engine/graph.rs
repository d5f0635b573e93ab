//! The graph of memories: linking, looking back, and walking.

use vstd::prelude::*;

use crate::engine::apply::{edge_views, unit_weight, Edge, EdgeView};
use crate::score::Score;
use crate::seqs::{lemma_filter_none, lemma_filter_take};
use crate::text;
use crate::text::{listed, views};

verus! {

broadcast use vstd::string::group_string_axioms;

// ── Linking ──────────────────────────────────────────────────────────────────────────

/// The edge of a link that is made at an instant.
pub open spec fn link_of(
    id: u128,
    src: Seq<char>,
    relation: Seq<char>,
    dst: Seq<char>,
    source: Option<u128>,
    at: i128,
) -> EdgeView {
    EdgeView {
        id,
        src,
        relation,
        dst,
        weight: unit_weight(),
        source_memory_id: source,
        valid_from: Some(at),
        valid_to: None,
    }
}

/// Links two entities. A functional relation has one value at a time: there the older edges are
/// closed at the same instant.
pub fn memory_link(
    id: u128,
    src: &str,
    relation: &str,
    dst: &str,
    source: Option<u128>,
    at: i128,
) -> (r: Edge)
    ensures
        r@ == link_of(id, src@, relation@, dst@, source, at),
{
    Edge {
        id,
        src: src.to_owned(),
        relation: relation.to_owned(),
        dst: dst.to_owned(),
        weight: Score::one(),
        source_memory_id: source,
        valid_from: Some(at),
        valid_to: None,
    }
}

// ── Looking back ─────────────────────────────────────────────────────────────────────

/// Was an edge there at an instant?
pub open spec fn there_at(e: EdgeView, t: i128) -> bool {
    (match e.valid_from {
        Some(from) => from <= t,
        None => true,
    }) && match e.valid_to {
        Some(to) => to > t,
        None => true,
    }
}

/// The edges of the graph as it was at an instant; all of them, where none is given.
pub open spec fn as_it_was(edges: Seq<EdgeView>, as_of: Option<i128>) -> Seq<EdgeView> {
    match as_of {
        Some(t) => edges.filter(|e: EdgeView| there_at(e, t)),
        None => edges,
    }
}

pub open spec fn ends(e: EdgeView) -> (Seq<char>, Seq<char>, Score) {
    (e.src, e.dst, e.weight)
}

pub open spec fn end_views(v: Seq<(String, String, Score)>) -> Seq<(Seq<char>, Seq<char>, Score)> {
    v.map_values(|t: (String, String, Score)| (t.0@, t.1@, t.2))
}

fn was_there(e: &Edge, t: i128) -> (r: bool)
    ensures
        r == there_at(e@, t),
{
    let from_ok = match e.valid_from {
        Some(from) => from <= t,
        None => true,
    };
    let to_ok = match e.valid_to {
        Some(to) => to > t,
        None => true,
    };
    from_ok && to_ok
}

/// The ends and weights of the edges, for analysis: of the graph as it is, from its active edges, or
/// as it was at an instant, from all of them.
pub fn graph_triples(edges: &Vec<Edge>, as_of: Option<i128>) -> (r: Vec<(String, String, Score)>)
    ensures
        end_views(r@) == as_it_was(edge_views(edges@), as_of).map_values(|e: EdgeView| ends(e)),
{
    let ghost all = edge_views(edges@);
    let ghost p = |e: EdgeView|
        match as_of {
            Some(t) => there_at(e, t),
            None => true,
        };
    let ghost f = |e: EdgeView| ends(e);
    let mut out: Vec<(String, String, Score)> = Vec::new();
    let mut i: usize = 0;
    proof {
        lemma_filter_none(all, p);
        assert(end_views(out@) =~= all.take(0).filter(p).map_values(f));
    }
    while i < edges.len()
        invariant
            i <= edges.len(),
            all == edge_views(edges@),
            p == |e: EdgeView|
                match as_of {
                    Some(t) => there_at(e, t),
                    None => true,
                },
            f == |e: EdgeView| ends(e),
            end_views(out@) == all.take(i as int).filter(p).map_values(f),
        decreases edges.len() - i,
    {
        let ghost before = out@;
        proof {
            lemma_filter_take(all, p, i as int);
            assert(all[i as int] == edges@[i as int]@);
        }
        let keep = match as_of {
            Some(t) => was_there(&edges[i], t),
            None => true,
        };
        if keep {
            out.push((edges[i].src.clone(), edges[i].dst.clone(), edges[i].weight));
            proof {
                let kept = all.take(i as int).filter(p);
                assert(end_views(out@) =~= end_views(before).push(ends(all[i as int])));
                assert(kept.push(all[i as int]).map_values(f) =~= kept.map_values(f).push(
                    ends(all[i as int]),
                ));
            }
        }
        i += 1;
    }
    proof {
        assert(all.take(all.len() as int) =~= all);
        match as_of {
            Some(t) => {
                assert(p =~= |e: EdgeView| there_at(e, t));
            },
            None => {
                lemma_filter_all(all, p);
            },
        }
    }
    out
}

proof fn lemma_filter_all(s: Seq<EdgeView>, p: spec_fn(EdgeView) -> bool)
    requires
        forall|e: EdgeView| #[trigger] p(e),
    ensures
        s.filter(p) == s,
    decreases s.len(),
{
    reveal(Seq::filter);
    if s.len() > 0 {
        lemma_filter_all(s.drop_last(), p);
        assert(p(s.last()));
        assert(s.filter(p) =~= s);
    } else {
        assert(s.filter(p) =~= s);
    }
}

/// The value of a functional relation changes at an instant: an edge that was closed when the new
/// one was made is never there together with it, and there is no instant in between without one.
pub proof fn law_functional_links_follow_one_another(
    old: EdgeView,
    id: u128,
    src: Seq<char>,
    relation: Seq<char>,
    dst: Seq<char>,
    source: Option<u128>,
    at: i128,
    t: i128,
)
    requires
        old.valid_from matches Some(from) ==> from <= t,
    ensures
        there_at(EdgeView { valid_to: Some(at), ..old }, t) <==> !there_at(
            link_of(id, src, relation, dst, source, at),
            t,
        ),
{
}

// ── Walking ──────────────────────────────────────────────────────────────────────────

/// Where a walk through the graph stands. It goes out from an entity in rounds, over the edges of
/// all entities that the round before came to.
pub struct WalkView {
    /// How many edges are wanted at most.
    pub cap: nat,
    /// The rounds that are left, this one among them.
    pub rounds: nat,
    /// The entities of this round that are left.
    pub todo: Seq<Seq<char>>,
    /// The entities of the next round.
    pub next: Seq<Seq<char>>,
    /// The entities that were come to.
    pub seen: Seq<Seq<char>>,
    /// The edges that were gone over.
    pub edges: Seq<EdgeView>,
}

pub open spec fn least(a: nat, b: nat) -> nat {
    if a <= b {
        a
    } else {
        b
    }
}

pub open spec fn most(a: nat, b: nat) -> nat {
    if a >= b {
        a
    } else {
        b
    }
}

/// A walk from an entity: at least one round, and at least one edge.
pub open spec fn walk_from(entity: Seq<char>, depth: nat, max_edges: nat, max_rows: nat) -> WalkView {
    WalkView {
        cap: most(least(max_edges, max_rows), 1),
        rounds: most(depth, 1),
        todo: seq![entity],
        next: seq![],
        seen: seq![entity],
        edges: seq![],
    }
}

/// Is the walk over?
pub open spec fn over(w: WalkView) -> bool {
    w.edges.len() >= w.cap || w.todo.len() == 0
}

pub open spec fn gone_over(edges: Seq<EdgeView>, id: u128) -> bool {
    exists|i: int| 0 <= i < edges.len() && (#[trigger] edges[i]).id == id
}

/// Comes to an entity, where it is new.
pub open spec fn came_to(w: WalkView, entity: Seq<char>) -> WalkView {
    if listed(w.seen, entity) {
        w
    } else {
        WalkView { seen: w.seen.push(entity), next: w.next.push(entity), ..w }
    }
}

/// Goes over an edge, where it is new and there is room.
pub open spec fn went_over(w: WalkView, e: EdgeView) -> WalkView {
    if w.edges.len() >= w.cap || gone_over(w.edges, e.id) {
        w
    } else {
        let there = came_to(came_to(w, e.src), e.dst);
        WalkView { edges: there.edges.push(e), ..there }
    }
}

pub open spec fn went_over_all(w: WalkView, near: Seq<EdgeView>) -> WalkView
    decreases near.len(),
{
    if near.len() == 0 {
        w
    } else {
        went_over(went_over_all(w, near.drop_last()), near.last())
    }
}

/// The next round, where this one is done, and one is left.
pub open spec fn turned(w: WalkView) -> WalkView {
    if w.todo.len() > 0 || w.next.len() == 0 || w.rounds <= 1 {
        w
    } else {
        WalkView { todo: w.next, next: seq![], rounds: (w.rounds - 1) as nat, ..w }
    }
}

/// One step: over the edges of the first entity that is left.
pub open spec fn stepped(w: WalkView, near: Seq<EdgeView>) -> WalkView {
    let there = went_over_all(w, near);
    turned(WalkView { todo: w.todo.drop_first(), ..there })
}

/// What holds of every walk: no edge twice, no entity twice, no more edges than wanted, the ends of
/// every edge were come to, and so was everything that is left to do.
pub open spec fn sound(w: WalkView) -> bool {
    &&& w.cap >= 1
    &&& w.edges.len() <= w.cap
    &&& forall|i: int, j: int|
        0 <= i < j < w.edges.len() ==> (#[trigger] w.edges[i]).id != (#[trigger] w.edges[j]).id
    &&& w.seen.no_duplicates()
    &&& forall|i: int|
        0 <= i < w.edges.len() ==> listed(w.seen, (#[trigger] w.edges[i]).src) && listed(
            w.seen,
            w.edges[i].dst,
        )
    &&& forall|i: int| 0 <= i < w.todo.len() ==> listed(w.seen, #[trigger] w.todo[i])
    &&& forall|i: int| 0 <= i < w.next.len() ==> listed(w.seen, #[trigger] w.next[i])
}

proof fn lemma_listed_push(s: Seq<Seq<char>>, x: Seq<char>, y: Seq<char>)
    ensures
        listed(s, y) ==> listed(s.push(x), y),
        listed(s.push(x), x),
{
    if listed(s, y) {
        let i = choose|i: int| 0 <= i < s.len() && s[i] == y;
        assert(s.push(x)[i] == y);
    }
    assert(s.push(x)[s.len() as int] == x);
}

proof fn lemma_came_to(w: WalkView, entity: Seq<char>)
    requires
        sound(w),
    ensures
        sound(came_to(w, entity)),
        listed(came_to(w, entity).seen, entity),
        forall|y: Seq<char>| listed(w.seen, y) ==> #[trigger] listed(came_to(w, entity).seen, y),
{
    let after = came_to(w, entity);
    assert forall|y: Seq<char>| listed(w.seen, y) implies #[trigger] listed(after.seen, y) by {
        lemma_listed_push(w.seen, entity, y);
    }
    lemma_listed_push(w.seen, entity, entity);
    if !listed(w.seen, entity) {
        assert forall|i: int, j: int|
            0 <= i < after.seen.len() && 0 <= j < after.seen.len() && i
                != j implies after.seen[i] != after.seen[j] by {
            if i == w.seen.len() {
                assert(after.seen[j] == w.seen[j]);
                if w.seen[j] == entity {
                    assert(listed(w.seen, entity));
                }
            } else if j == w.seen.len() {
                assert(after.seen[i] == w.seen[i]);
                if w.seen[i] == entity {
                    assert(listed(w.seen, entity));
                }
            }
        }
        assert forall|i: int| 0 <= i < after.next.len() implies listed(
            after.seen,
            #[trigger] after.next[i],
        ) by {
            if i < w.next.len() {
                assert(after.next[i] == w.next[i]);
                assert(listed(w.seen, w.next[i]));
            }
        }
        assert forall|i: int| 0 <= i < after.todo.len() implies listed(
            after.seen,
            #[trigger] after.todo[i],
        ) by {
            assert(listed(w.seen, w.todo[i]));
        }
        assert forall|i: int| 0 <= i < after.edges.len() implies listed(
            after.seen,
            (#[trigger] after.edges[i]).src,
        ) && listed(after.seen, after.edges[i].dst) by {
            assert(listed(w.seen, w.edges[i].src));
        }
    }
}

proof fn lemma_went_over(w: WalkView, e: EdgeView)
    requires
        sound(w),
    ensures
        sound(went_over(w, e)),
        went_over(w, e).todo == w.todo,
        went_over(w, e).cap == w.cap,
        went_over(w, e).rounds == w.rounds,
{
    if w.edges.len() < w.cap && !gone_over(w.edges, e.id) {
        let one = came_to(w, e.src);
        lemma_came_to(w, e.src);
        let two = came_to(one, e.dst);
        lemma_came_to(one, e.dst);
        let after = went_over(w, e);
        assert(listed(two.seen, e.src));
        assert forall|i: int, j: int| 0 <= i < j < after.edges.len() implies (
        #[trigger] after.edges[i]).id != (#[trigger] after.edges[j]).id by {
            if j == w.edges.len() {
                assert(after.edges[i] == w.edges[i]);
            } else {
                assert(after.edges[i] == w.edges[i] && after.edges[j] == w.edges[j]);
            }
        }
        assert forall|i: int| 0 <= i < after.edges.len() implies listed(
            after.seen,
            (#[trigger] after.edges[i]).src,
        ) && listed(after.seen, after.edges[i].dst) by {
            if i < two.edges.len() {
                assert(after.edges[i] == two.edges[i]);
            }
        }
    }
}

proof fn lemma_went_over_all(w: WalkView, near: Seq<EdgeView>)
    requires
        sound(w),
    ensures
        sound(went_over_all(w, near)),
        went_over_all(w, near).todo == w.todo,
        went_over_all(w, near).cap == w.cap,
        went_over_all(w, near).rounds == w.rounds,
    decreases near.len(),
{
    if near.len() > 0 {
        lemma_went_over_all(w, near.drop_last());
        lemma_went_over(went_over_all(w, near.drop_last()), near.last());
    }
}

/// A walk stays sound, whatever the graph answers.
pub proof fn law_walks_are_sound(w: WalkView, near: Seq<EdgeView>)
    requires
        sound(w),
        !over(w),
    ensures
        sound(stepped(w, near)),
{
    lemma_went_over_all(w, near);
    let there = went_over_all(w, near);
    let on = WalkView { todo: w.todo.drop_first(), ..there };
    assert forall|i: int| 0 <= i < on.todo.len() implies listed(on.seen, #[trigger] on.todo[i]) by {
        assert(on.todo[i] == there.todo[i + 1]);
    }
    assert(sound(on));
}

/// A walk starts sound.
pub proof fn law_walks_start_sound(entity: Seq<char>, depth: nat, max_edges: nat, max_rows: nat)
    ensures
        sound(walk_from(entity, depth, max_edges, max_rows)),
        !over(walk_from(entity, depth, max_edges, max_rows)),
{
    let w = walk_from(entity, depth, max_edges, max_rows);
    assert(w.seen[0] == entity);
    assert(listed(w.seen, entity));
}

/// A walk ends: each step leaves fewer entities in the round, or fewer rounds.
pub proof fn law_walks_end(w: WalkView, near: Seq<EdgeView>)
    requires
        sound(w),
        !over(w),
    ensures
        ({
            let after = stepped(w, near);
            after.rounds < w.rounds || (after.rounds == w.rounds && after.todo.len()
                < w.todo.len())
        }),
{
    lemma_went_over_all(w, near);
}

/// A walk through the graph.
pub struct Walk {
    cap: usize,
    rounds: usize,
    todo: Vec<String>,
    at: usize,
    next: Vec<String>,
    seen: Vec<String>,
    edges: Vec<Edge>,
}

impl View for Walk {
    type V = WalkView;

    closed spec fn view(&self) -> WalkView {
        WalkView {
            cap: self.cap as nat,
            rounds: self.rounds as nat,
            todo: views(self.todo@).skip(self.at as int),
            next: views(self.next@),
            seen: views(self.seen@),
            edges: edge_views(self.edges@),
        }
    }
}

fn passed(edges: &Vec<Edge>, id: u128) -> (r: bool)
    ensures
        r == gone_over(edge_views(edges@), id),
{
    let ghost all = edge_views(edges@);
    let mut i: usize = 0;
    while i < edges.len()
        invariant
            i <= edges.len(),
            all == edge_views(edges@),
            forall|k: int| 0 <= k < i ==> (#[trigger] all[k]).id != id,
        decreases edges.len() - i,
    {
        proof {
            assert(all[i as int] == edges@[i as int]@);
        }
        if edges[i].id == id {
            return true;
        }
        i += 1;
    }
    false
}

impl Walk {
    #[verifier::type_invariant]
    spec fn valid(self) -> bool {
        self.at <= self.todo@.len()
    }

    /// A walk from an entity.
    pub fn start(entity: &str, depth: usize, max_edges: usize, max_rows: usize) -> (r: Walk)
        ensures
            r@ == walk_from(entity@, depth as nat, max_edges as nat, max_rows as nat),
    {
        let mut cap: usize = if max_edges <= max_rows {
            max_edges
        } else {
            max_rows
        };
        if cap < 1 {
            cap = 1;
        }
        let rounds: usize = if depth >= 1 {
            depth
        } else {
            1
        };
        let mut todo: Vec<String> = Vec::new();
        todo.push(entity.to_owned());
        let mut seen: Vec<String> = Vec::new();
        seen.push(entity.to_owned());
        let next: Vec<String> = Vec::new();
        let edges: Vec<Edge> = Vec::new();
        proof {
            assert(views(todo@).skip(0) =~= seq![entity@]);
            assert(views(seen@) =~= seq![entity@]);
            assert(views(next@) =~= seq![]);
            assert(edge_views(edges@) =~= seq![]);
        }
        Walk { cap, rounds, todo, at: 0, next, seen, edges }
    }

    /// How many edges are wanted at most.
    pub fn limit(&self) -> (r: usize)
        ensures
            r == self@.cap,
    {
        self.cap
    }

    /// The entity whose edges are wanted next. The walk is over where there is none.
    pub fn wanted(&self) -> (r: Option<&str>)
        ensures
            match r {
                Some(s) => !over(self@) && s@ == self@.todo[0],
                None => over(self@),
            },
    {
        proof {
            use_type_invariant(self);
        }
        if self.edges.len() >= self.cap || self.at >= self.todo.len() {
            return None;
        }
        proof {
            assert(self@.todo[0] == self.todo@[self.at as int]@);
        }
        Some(self.todo[self.at].as_str())
    }

    /// Takes the edges of the entity that was wanted.
    pub fn take(self, near: &Vec<Edge>) -> (r: Walk)
        requires
            !over(self@),
        ensures
            r@ == stepped(self@, edge_views(near@)),
    {
        proof {
            use_type_invariant(&self);
        }
        let ghost start = self@;
        let ghost all = edge_views(near@);
        let Walk { cap, rounds, todo, at, next, seen, edges } = self;
        let mut rounds = rounds;
        let mut todo = todo;
        let mut at = at;
        let mut next = next;
        let mut seen = seen;
        let mut edges = edges;
        let ghost todo_view = start.todo;
        let mut i: usize = 0;
        proof {
            assert(todo_view.len() == todo.len() - at);
            assert(all.take(0) =~= seq![]);
        }
        while i < near.len()
            invariant
                i <= near.len(),
                all == edge_views(near@),
                (WalkView {
                    cap: cap as nat,
                    rounds: rounds as nat,
                    todo: todo_view,
                    next: views(next@),
                    seen: views(seen@),
                    edges: edge_views(edges@),
                }) == went_over_all(start, all.take(i as int)),
            decreases near.len() - i,
        {
            proof {
                assert(all.take(i + 1).drop_last() =~= all.take(i as int));
                assert(all.take(i + 1).last() == near@[i as int]@);
            }
            if edges.len() < cap && !passed(&edges, near[i].id) {
                come_to(&mut seen, &mut next, near[i].src.as_str());
                come_to(&mut seen, &mut next, near[i].dst.as_str());
                let ghost before = edges@;
                edges.push(near[i].copy());
                proof {
                    assert(edge_views(edges@) =~= edge_views(before).push(near@[i as int]@));
                }
            }
            i += 1;
        }
        proof {
            assert(all.take(all.len() as int) =~= all);
            assert(views(todo@).skip(at as int).drop_first() =~= views(todo@).skip(at + 1));
        }
        at += 1;
        if at >= todo.len() && next.len() > 0 && rounds > 1 {
            let ghost ahead = views(next@);
            todo = next;
            next = Vec::new();
            at = 0;
            rounds -= 1;
            proof {
                assert(views(todo@).skip(0) =~= ahead);
                assert(views(next@) =~= seq![]);
            }
        }
        Walk { cap, rounds, todo, at, next, seen, edges }
    }

    /// The edges that were gone over.
    pub fn finish(self) -> (r: Vec<Edge>)
        ensures
            edge_views(r@) == self@.edges,
    {
        self.edges
    }
}

fn come_to(seen: &mut Vec<String>, next: &mut Vec<String>, entity: &str)
    ensures
        listed(views(old(seen)@), entity@) ==> views(final(seen)@) == views(old(seen)@) && views(
            final(next)@,
        ) == views(old(next)@),
        !listed(views(old(seen)@), entity@) ==> views(final(seen)@) == views(old(seen)@).push(
            entity@,
        ) && views(final(next)@) == views(old(next)@).push(entity@),
{
    if !text::one_of(seen, entity) {
        let ghost a = seen@;
        let ghost b = next@;
        seen.push(entity.to_owned());
        next.push(entity.to_owned());
        proof {
            assert(views(seen@) =~= views(a).push(entity@));
            assert(views(next@) =~= views(b).push(entity@));
        }
    }
}

} // verus!
