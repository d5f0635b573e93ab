//! Workflows: the order in which the nodes of a dependency graph run.

use vstd::prelude::*;

use crate::runtime::types::WorkflowNode;
use crate::text;
use crate::text::views;

verus! {

broadcast use vstd::string::group_string_axioms;

// ── Model ────────────────────────────────────────────────────────────────────────────

/// What a node is: who is asked what, and the ids of the nodes that it waits for.
pub struct NodeView {
    pub id: Seq<char>,
    pub agent_id: Seq<char>,
    pub question: Seq<char>,
    pub deps: Seq<Seq<char>>,
}

impl View for WorkflowNode {
    type V = NodeView;

    open spec fn view(&self) -> NodeView {
        NodeView {
            id: self.id@,
            agent_id: self.agent_id@,
            question: self.question@,
            deps: views(self.deps@),
        }
    }
}

pub open spec fn node_views(nodes: Seq<WorkflowNode>) -> Seq<NodeView> {
    nodes.map_values(|n: WorkflowNode| n@)
}

/// The node that an id names: the last one that has it.
pub open spec fn named(nodes: Seq<NodeView>, id: Seq<char>) -> Option<int>
    decreases nodes.len(),
{
    if nodes.len() == 0 {
        None
    } else if nodes.last().id == id {
        Some(nodes.len() - 1)
    } else {
        named(nodes.drop_last(), id)
    }
}

/// Does every dependency name a node?
pub open spec fn all_known(nodes: Seq<NodeView>) -> bool {
    forall|i: int, d: int|
        0 <= i < nodes.len() && 0 <= d < nodes[i].deps.len() ==> named(
            nodes,
            #[trigger] nodes[i].deps[d],
        ) is Some
}

/// Does `j` stand among the first `t` of `q`?
pub open spec fn among_first(q: Seq<int>, t: int, j: int) -> bool {
    exists|p: int| 0 <= p < t && p < q.len() && #[trigger] q[p] == j
}

/// Do all nodes that node `i` waits for stand among the first `t` of `q`?
pub open spec fn ready(nodes: Seq<NodeView>, q: Seq<int>, i: int, t: int) -> bool {
    forall|d: int|
        0 <= d < nodes[i].deps.len() ==> match named(nodes, #[trigger] nodes[i].deps[d]) {
            Some(j) => among_first(q, t, j),
            None => false,
        }
}

/// Distinct nodes, each after the nodes that it waits for.
pub open spec fn runs_in_order(nodes: Seq<NodeView>, q: Seq<int>) -> bool {
    &&& q.no_duplicates()
    &&& forall|p: int| 0 <= p < q.len() ==> 0 <= #[trigger] q[p] < nodes.len()
    &&& forall|p: int| 0 <= p < q.len() ==> #[trigger] ready(nodes, q, q[p], p)
}

/// Node `a` comes before node `b`: it is ready earlier, or both are ready at the same time and it
/// stands earlier in the list.
pub open spec fn precedes(nodes: Seq<NodeView>, q: Seq<int>, a: int, b: int) -> bool {
    ||| exists|t: int|
        #![trigger ready(nodes, q, a, t)]
        ready(nodes, q, a, t) && !ready(nodes, q, b, t)
    ||| a < b && forall|t: int|
        #![trigger ready(nodes, q, a, t)]
        ready(nodes, q, a, t) == ready(nodes, q, b, t)
}

/// The order in which a workflow runs: all nodes, each after those that it waits for, the earlier
/// ready first.
pub open spec fn execution_order(nodes: Seq<NodeView>, q: Seq<int>) -> bool {
    &&& runs_in_order(nodes, q)
    &&& q.len() == nodes.len()
    &&& forall|a: int, b: int|
        #![trigger q[a], q[b]]
        0 <= a < b < q.len() ==> precedes(nodes, q, q[a], q[b])
}

/// Can the nodes run at all? Every dependency is known, and no node waits for itself, however far
/// around.
pub open spec fn runnable(nodes: Seq<NodeView>) -> bool {
    exists|q: Seq<int>| #[trigger] runs_in_order(nodes, q) && q.len() == nodes.len()
}

// ── Lemmas ───────────────────────────────────────────────────────────────────────────

proof fn lemma_ready_grows(nodes: Seq<NodeView>, q: Seq<int>, i: int, s: int, t: int)
    requires
        s <= t,
        ready(nodes, q, i, s),
    ensures
        ready(nodes, q, i, t),
{
    assert forall|d: int| 0 <= d < nodes[i].deps.len() implies match named(
        nodes,
        #[trigger] nodes[i].deps[d],
    ) {
        Some(j) => among_first(q, t, j),
        None => false,
    } by {
        let j = named(nodes, nodes[i].deps[d])->0;
        assert(among_first(q, s, j));
        let p = choose|p: int| 0 <= p < s && p < q.len() && #[trigger] q[p] == j;
        assert(0 <= p < t && q[p] == j);
    }
}

/// What is ready after `t` depends on the first `t` alone.
proof fn lemma_ready_prefix(nodes: Seq<NodeView>, q: Seq<int>, r: Seq<int>, i: int, t: int)
    requires
        0 <= t <= q.len(),
        t <= r.len(),
        q.take(t) == r.take(t),
    ensures
        ready(nodes, q, i, t) == ready(nodes, r, i, t),
{
    assert forall|j: int| among_first(q, t, j) == among_first(r, t, j) by {
        if among_first(q, t, j) {
            let p = choose|p: int| 0 <= p < t && p < q.len() && #[trigger] q[p] == j;
            assert(q.take(t)[p] == q[p] && r.take(t)[p] == r[p]);
            assert(r[p] == j);
        }
        if among_first(r, t, j) {
            let p = choose|p: int| 0 <= p < t && p < r.len() && #[trigger] r[p] == j;
            assert(q.take(t)[p] == q[p] && r.take(t)[p] == r[p]);
            assert(q[p] == j);
        }
    }
    if ready(nodes, q, i, t) {
        assert(ready(nodes, r, i, t));
    }
    if ready(nodes, r, i, t) {
        assert(ready(nodes, q, i, t));
    }
}

proof fn lemma_named(nodes: Seq<NodeView>, id: Seq<char>)
    ensures
        match named(nodes, id) {
            Some(j) => {
                &&& 0 <= j < nodes.len()
                &&& nodes[j].id == id
                &&& forall|k: int| j < k < nodes.len() ==> (#[trigger] nodes[k]).id != id
            },
            None => forall|k: int| 0 <= k < nodes.len() ==> (#[trigger] nodes[k]).id != id,
        },
    decreases nodes.len(),
{
    if nodes.len() > 0 && nodes.last().id != id {
        lemma_named(nodes.drop_last(), id);
        let rest = nodes.drop_last();
        assert forall|k: int| 0 <= k < rest.len() implies (#[trigger] nodes[k]) == rest[k] by {}
    }
}

/// Distinct numbers below `n`, `n` of them, are all the numbers below `n`.
proof fn lemma_all_numbers(q: Seq<int>, n: int, x: int)
    requires
        q.no_duplicates(),
        q.len() == n,
        forall|p: int| 0 <= p < q.len() ==> 0 <= #[trigger] q[p] < n,
        0 <= x < n,
    ensures
        exists|p: int| 0 <= p < q.len() && #[trigger] q[p] == x,
{
    broadcast use vstd::seq_lib::seq_to_set_is_finite;

    q.unique_seq_to_set();
    vstd::set_lib::lemma_int_range(0, n);
    let all = vstd::set_lib::set_int_range(0, n);
    assert(q.to_set().subset_of(all));
    vstd::set_lib::lemma_subset_equality(q.to_set(), all);
    assert(all.contains(x));
    assert(q.to_set().contains(x));
    assert(q.contains(x));
}

/// Where nothing more is ready, nothing more can ever run: whatever order there is holds no other
/// nodes.
proof fn lemma_stuck(nodes: Seq<NodeView>, q: Seq<int>, r: Seq<int>, p: int)
    requires
        runs_in_order(nodes, r),
        forall|k: int|
            0 <= k < nodes.len() && #[trigger] ready(nodes, q, k, q.len() as int) ==> among_first(
                q,
                q.len() as int,
                k,
            ),
        0 <= p < r.len(),
    ensures
        among_first(q, q.len() as int, r[p]),
    decreases p,
{
    let n = q.len() as int;
    let k = r[p];
    assert(ready(nodes, r, k, p));
    assert(ready(nodes, q, k, n)) by {
        assert forall|d: int| 0 <= d < nodes[k].deps.len() implies match named(
            nodes,
            #[trigger] nodes[k].deps[d],
        ) {
            Some(j) => among_first(q, n, j),
            None => false,
        } by {
            let j = named(nodes, nodes[k].deps[d])->0;
            assert(among_first(r, p, j));
            let e = choose|e: int| 0 <= e < p && e < r.len() && #[trigger] r[e] == j;
            lemma_stuck(nodes, q, r, e);
        }
    }
}

proof fn lemma_not_runnable(nodes: Seq<NodeView>, q: Seq<int>)
    requires
        q.no_duplicates(),
        q.len() < nodes.len(),
        forall|k: int|
            0 <= k < nodes.len() && #[trigger] ready(nodes, q, k, q.len() as int) ==> among_first(
                q,
                q.len() as int,
                k,
            ),
    ensures
        !runnable(nodes),
{
    broadcast use vstd::seq_lib::seq_to_set_is_finite;

    if runnable(nodes) {
        let r = choose|r: Seq<int>| #[trigger] runs_in_order(nodes, r) && r.len() == nodes.len();
        assert(r.to_set().subset_of(q.to_set())) by {
            assert forall|x: int| r.to_set().contains(x) implies q.to_set().contains(x) by {
                let p = choose|p: int| 0 <= p < r.len() && r[p] == x;
                lemma_stuck(nodes, q, r, p);
                let e = choose|e: int| 0 <= e < q.len() && #[trigger] q[e] == x;
                assert(q.contains(x));
            }
        }
        r.unique_seq_to_set();
        q.unique_seq_to_set();
        vstd::set_lib::lemma_len_subset(r.to_set(), q.to_set());
    }
}

// ── Laws ─────────────────────────────────────────────────────────────────────────────

/// A workflow has one execution order at most.
pub proof fn law_order_is_unique(nodes: Seq<NodeView>, q: Seq<int>, r: Seq<int>)
    requires
        execution_order(nodes, q),
        execution_order(nodes, r),
    ensures
        q == r,
{
    lemma_same_prefix(nodes, q, r, q.len() as int);
    assert(q.take(q.len() as int) =~= q);
    assert(r.take(q.len() as int) =~= r);
}

proof fn lemma_same_prefix(nodes: Seq<NodeView>, q: Seq<int>, r: Seq<int>, t: int)
    requires
        execution_order(nodes, q),
        execution_order(nodes, r),
        0 <= t <= q.len(),
    ensures
        q.take(t) == r.take(t),
    decreases t,
{
    if t > 0 {
        let s = t - 1;
        lemma_same_prefix(nodes, q, r, s);
        let x = q[s];
        let y = r[s];
        if x != y {
            lemma_later(nodes, q, r, s);
            lemma_later(nodes, r, q, s);
            assert(ready(nodes, q, x, s));
            assert(ready(nodes, r, y, s));
            lemma_ready_prefix(nodes, q, r, x, s);
            lemma_ready_prefix(nodes, q, r, y, s);
            assert forall|u: int| ready(nodes, q, x, u) == ready(nodes, r, x, u) && ready(
                nodes,
                q,
                y,
                u,
            ) == ready(nodes, r, y, u) by {
                lemma_same_ready(nodes, q, r, x, s, u);
                lemma_same_ready(nodes, q, r, y, s, u);
            }
            if exists|u: int|
                #![trigger ready(nodes, q, x, u)]
                ready(nodes, q, x, u) && !ready(nodes, q, y, u) {
                let u = choose|u: int|
                    #![trigger ready(nodes, q, x, u)]
                    ready(nodes, q, x, u) && !ready(nodes, q, y, u);
                if exists|v: int|
                    #![trigger ready(nodes, r, y, v)]
                    ready(nodes, r, y, v) && !ready(nodes, r, x, v) {
                    let v = choose|v: int|
                        #![trigger ready(nodes, r, y, v)]
                        ready(nodes, r, y, v) && !ready(nodes, r, x, v);
                    if u <= v {
                        lemma_ready_grows(nodes, r, x, u, v);
                    } else {
                        lemma_ready_grows(nodes, q, y, v, u);
                    }
                } else {
                    assert(ready(nodes, r, y, u) == ready(nodes, r, x, u));
                }
            } else {
                assert(x < y);
                if exists|v: int|
                    #![trigger ready(nodes, r, y, v)]
                    ready(nodes, r, y, v) && !ready(nodes, r, x, v) {
                    let v = choose|v: int|
                        #![trigger ready(nodes, r, y, v)]
                        ready(nodes, r, y, v) && !ready(nodes, r, x, v);
                    assert(ready(nodes, q, x, v) == ready(nodes, q, y, v));
                }
            }
        }
        assert(q.take(t) =~= q.take(s).push(q[s]));
        assert(r.take(t) =~= r.take(s).push(r[s]));
    }
}

/// Being ready is the same in two orders with the same start, for a node that is ready after it.
proof fn lemma_same_ready(
    nodes: Seq<NodeView>,
    q: Seq<int>,
    r: Seq<int>,
    x: int,
    s: int,
    u: int,
)
    requires
        0 <= s <= q.len(),
        s <= r.len(),
        q.take(s) == r.take(s),
        ready(nodes, q, x, s),
    ensures
        ready(nodes, q, x, u) == ready(nodes, r, x, u),
{
    lemma_ready_prefix(nodes, q, r, x, s);
    if u >= s {
        lemma_ready_grows(nodes, q, x, s, u);
        lemma_ready_grows(nodes, r, x, s, u);
    } else if u >= 0 {
        assert(q.take(u) =~= q.take(s).take(u));
        assert(r.take(u) =~= r.take(s).take(u));
        lemma_ready_prefix(nodes, q, r, x, u);
    } else {
        assert(forall|j: int| !among_first(q, u, j) && !among_first(r, u, j));
        if ready(nodes, q, x, u) {
            assert(ready(nodes, r, x, u));
        }
        if ready(nodes, r, x, u) {
            assert(ready(nodes, q, x, u));
        }
    }
}

/// Where two orders part, each puts its own node first.
proof fn lemma_later(nodes: Seq<NodeView>, q: Seq<int>, r: Seq<int>, s: int)
    requires
        execution_order(nodes, q),
        execution_order(nodes, r),
        0 <= s < q.len(),
        q.take(s) == r.take(s),
        q[s] != r[s],
    ensures
        precedes(nodes, q, q[s], r[s]),
{
    let y = r[s];
    lemma_all_numbers(q, nodes.len() as int, y);
    let b = choose|b: int| 0 <= b < q.len() && #[trigger] q[b] == y;
    if b < s {
        assert(q.take(s)[b] == q[b] && r.take(s)[b] == r[b]);
        assert(r[b] == r[s]);
    }
    assert(precedes(nodes, q, q[s], q[b]));
}

// ── Code ─────────────────────────────────────────────────────────────────────────────

fn index_of(nodes: &[WorkflowNode], id: &str) -> (r: Option<usize>)
    ensures
        match r {
            Some(j) => j < nodes.len() && named(node_views(nodes@), id@) == Some(j as int),
            None => named(node_views(nodes@), id@) is None,
        },
{
    let ghost all = node_views(nodes@);
    let mut n: usize = nodes.len();
    proof {
        assert(all.take(n as int) =~= all);
    }
    while n > 0
        invariant
            n <= nodes.len(),
            all == node_views(nodes@),
            named(all.take(n as int), id@) == named(all, id@),
        decreases n,
    {
        proof {
            assert(all.take(n as int).last() == nodes@[n - 1]@);
            assert(all.take(n as int).drop_last() =~= all.take(n - 1));
        }
        if text::same(nodes[n - 1].id.as_str(), id) {
            return Some(n - 1);
        }
        n -= 1;
    }
    None
}

/// For each node the nodes that it waits for.
spec fn table_of(table: Seq<Vec<usize>>, nodes: Seq<NodeView>) -> bool {
    &&& table.len() == nodes.len()
    &&& forall|i: int| 0 <= i < table.len() ==> (#[trigger] table[i])@.len() == nodes[i].deps.len()
    &&& forall|i: int, d: int|
        0 <= i < table.len() && 0 <= d < nodes[i].deps.len() ==> {
            &&& table[i]@[d] < nodes.len()
            &&& named(nodes, #[trigger] nodes[i].deps[d]) == Some(table[i]@[d] as int)
        }
}

fn dependency_table(nodes: &[WorkflowNode]) -> (r: Option<Vec<Vec<usize>>>)
    ensures
        match r {
            Some(t) => table_of(t@, node_views(nodes@)),
            None => !all_known(node_views(nodes@)),
        },
{
    let ghost all = node_views(nodes@);
    let mut table: Vec<Vec<usize>> = Vec::new();
    let mut i: usize = 0;
    while i < nodes.len()
        invariant
            i <= nodes.len(),
            all == node_views(nodes@),
            table@.len() == i,
            forall|k: int|
                0 <= k < i ==> (#[trigger] table@[k])@.len() == all[k].deps.len(),
            forall|k: int, d: int|
                0 <= k < i && 0 <= d < all[k].deps.len() ==> {
                    &&& table@[k]@[d] < all.len()
                    &&& named(all, #[trigger] all[k].deps[d]) == Some(table@[k]@[d] as int)
                },
        decreases nodes.len() - i,
    {
        let deps = &nodes[i].deps;
        let mut row: Vec<usize> = Vec::new();
        let mut d: usize = 0;
        while d < deps.len()
            invariant
                i < nodes.len(),
                d <= deps.len(),
                deps@ == nodes@[i as int].deps@,
                all == node_views(nodes@),
                row@.len() == d,
                forall|e: int|
                    0 <= e < d ==> {
                        &&& row@[e] < all.len()
                        &&& named(all, #[trigger] all[i as int].deps[e]) == Some(row@[e] as int)
                    },
            decreases deps.len() - d,
        {
            proof {
                assert(all[i as int].deps[d as int] == deps@[d as int]@);
            }
            match index_of(nodes, deps[d].as_str()) {
                Some(j) => {
                    row.push(j);
                },
                None => {
                    proof {
                        assert(named(all, all[i as int].deps[d as int]) is None);
                    }
                    return None;
                },
            }
            d += 1;
        }
        table.push(row);
        i += 1;
    }
    Some(table)
}

spec fn ints(v: Seq<usize>) -> Seq<int> {
    v.map_values(|x: usize| x as int)
}

/// Where the queue stands: `spots[k]` is the place of node `k`, or the number of nodes where it has
/// none.
spec fn spots_of(spots: Seq<usize>, q: Seq<int>, n: int) -> bool {
    &&& spots.len() == n
    &&& forall|k: int|
        0 <= k < n ==> {
            ||| (#[trigger] spots[k]) == n && !among_first(q, q.len() as int, k)
            ||| spots[k] < q.len() && q[spots[k] as int] == k
        }
}

fn is_ready(row: &Vec<usize>, spots: &Vec<usize>, t: usize, Ghost(nodes): Ghost<Seq<NodeView>>, Ghost(table): Ghost<Seq<Vec<usize>>>, Ghost(q): Ghost<Seq<int>>, Ghost(k): Ghost<int>) -> (r: bool)
    requires
        table_of(table, nodes),
        0 <= k < nodes.len(),
        table[k]@ == row@,
        q.no_duplicates(),
        q.len() <= nodes.len(),
        spots_of(spots@, q, nodes.len() as int),
        t <= q.len(),
    ensures
        r == ready(nodes, q, k, t as int),
{
    let mut d: usize = 0;
    while d < row.len()
        invariant
            d <= row.len(),
            table_of(table, nodes),
            0 <= k < nodes.len(),
            table[k]@ == row@,
            q.no_duplicates(),
            q.len() <= nodes.len(),
            spots_of(spots@, q, nodes.len() as int),
            t <= q.len(),
            forall|e: int|
                0 <= e < d ==> match named(nodes, #[trigger] nodes[k].deps[e]) {
                    Some(j) => among_first(q, t as int, j),
                    None => false,
                },
        decreases row.len() - d,
    {
        let j = row[d];
        proof {
            assert(named(nodes, nodes[k].deps[d as int]) == Some(j as int));
        }
        let spot: usize = spots[j];
        if spot >= t {
            proof {
                if among_first(q, t as int, j as int) {
                    let p = choose|p: int|
                        0 <= p < t && p < q.len() && #[trigger] q[p] == j as int;
                    assert(among_first(q, q.len() as int, j as int));
                    assert(q[spot as int] == q[p]);
                }
                assert(!ready(nodes, q, k, t as int));
            }
            return false;
        }
        proof {
            assert(q[spot as int] == j as int);
        }
        d += 1;
    }
    true
}

/// What holds after all nodes that are ready after the first `t` have been queued.
spec fn settled(nodes: Seq<NodeView>, q: Seq<int>, t: int) -> bool {
    &&& runs_in_order(nodes, q)
    &&& forall|k: int|
        0 <= k < nodes.len() && #[trigger] ready(nodes, q, k, t) ==> among_first(
            q,
            q.len() as int,
            k,
        )
    &&& forall|p: int| 0 <= p < q.len() ==> #[trigger] ready(nodes, q, q[p], t)
    &&& forall|a: int, b: int|
        #![trigger q[a], q[b]]
        0 <= a < b < q.len() ==> precedes(nodes, q, q[a], q[b])
}

/// Where the queueing of what is ready after the first `t` stands: the queue held `start` nodes
/// before, and the nodes below `k` have been looked at.
spec fn staging(nodes: Seq<NodeView>, q: Seq<int>, t: int, start: int, k: int) -> bool {
    &&& runs_in_order(nodes, q)
    &&& 0 <= t <= start <= q.len()
    &&& t == 0 ==> start == 0
    &&& t > 0 ==> forall|m: int|
        0 <= m < nodes.len() && #[trigger] ready(nodes, q, m, t - 1) ==> among_first(q, start, m)
    &&& t > 0 ==> forall|p: int| 0 <= p < start ==> #[trigger] ready(nodes, q, q[p], t - 1)
    &&& forall|p: int| start <= p < q.len() ==> #[trigger] ready(nodes, q, q[p], t) && q[p] < k
    &&& forall|m: int|
        0 <= m < k && m < nodes.len() && #[trigger] ready(nodes, q, m, t) ==> among_first(
            q,
            q.len() as int,
            m,
        )
    &&& forall|a: int, b: int|
        #![trigger q[a], q[b]]
        0 <= a < b < q.len() ==> precedes(nodes, q, q[a], q[b])
}

proof fn lemma_no_deps(nodes: Seq<NodeView>, q: Seq<int>, x: int, u: int)
    requires
        ready(nodes, q, x, 0),
    ensures
        ready(nodes, q, x, u),
{
    if nodes[x].deps.len() > 0 {
        assert(named(nodes, nodes[x].deps[0]) is Some);
        let j = named(nodes, nodes[x].deps[0])->0;
        assert(among_first(q, 0, j));
    }
}

proof fn lemma_same_precedence(
    nodes: Seq<NodeView>,
    q: Seq<int>,
    r: Seq<int>,
    t: int,
    x: int,
    y: int,
)
    requires
        0 <= t <= q.len(),
        t <= r.len(),
        q.take(t) == r.take(t),
        ready(nodes, q, x, t),
        ready(nodes, q, y, t),
        precedes(nodes, q, x, y),
    ensures
        precedes(nodes, r, x, y),
{
    assert forall|u: int| ready(nodes, q, x, u) == ready(nodes, r, x, u) && ready(nodes, q, y, u)
        == ready(nodes, r, y, u) by {
        lemma_same_ready(nodes, q, r, x, t, u);
        lemma_same_ready(nodes, q, r, y, t, u);
    }
    if exists|u: int|
        #![trigger ready(nodes, q, x, u)]
        ready(nodes, q, x, u) && !ready(nodes, q, y, u) {
        let u = choose|u: int|
            #![trigger ready(nodes, q, x, u)]
            ready(nodes, q, x, u) && !ready(nodes, q, y, u);
        assert(ready(nodes, r, x, u) && !ready(nodes, r, y, u));
    } else {
        assert forall|u: int|
            #![trigger ready(nodes, r, x, u)]
            ready(nodes, r, x, u) == ready(nodes, r, y, u) by {
            assert(ready(nodes, q, x, u) == ready(nodes, q, y, u));
        }
    }
}

/// A placed node is ready after the first `t`.
proof fn lemma_placed_is_ready(
    nodes: Seq<NodeView>,
    q: Seq<int>,
    t: int,
    start: int,
    k: int,
    p: int,
)
    requires
        staging(nodes, q, t, start, k),
        0 <= p < q.len(),
    ensures
        ready(nodes, q, q[p], t),
{
    if p < start {
        assert(ready(nodes, q, q[p], t - 1));
        lemma_ready_grows(nodes, q, q[p], t - 1, t);
    }
}

/// A node that is queued at this stage was not ready before.
proof fn lemma_new_precedence(
    nodes: Seq<NodeView>,
    q: Seq<int>,
    t: int,
    start: int,
    k: int,
    a: int,
)
    requires
        staging(nodes, q, t, start, k),
        0 <= k < nodes.len(),
        !among_first(q, q.len() as int, k),
        ready(nodes, q, k, t),
        0 <= a < q.len(),
    ensures
        precedes(nodes, q.push(k), q[a], k),
{
    let r = q.push(k);
    let x = q[a];
    assert(q.take(t) =~= r.take(t));
    lemma_placed_is_ready(nodes, q, t, start, k, a);
    assert forall|u: int| ready(nodes, q, x, u) == ready(nodes, r, x, u) && ready(nodes, q, k, u)
        == ready(nodes, r, k, u) by {
        lemma_same_ready(nodes, q, r, x, t, u);
        lemma_same_ready(nodes, q, r, k, t, u);
    }
    if a < start {
        assert(ready(nodes, q, x, t - 1));
        if ready(nodes, q, k, t - 1) {
            let p = choose|p: int| 0 <= p < start && p < q.len() && #[trigger] q[p] == k;
            assert(among_first(q, q.len() as int, k));
        }
        assert(ready(nodes, r, x, t - 1) && !ready(nodes, r, k, t - 1));
    } else {
        assert(x < k);
        assert forall|u: int|
            #![trigger ready(nodes, r, x, u)]
            ready(nodes, r, x, u) == ready(nodes, r, k, u) by {
            if u >= t {
                lemma_ready_grows(nodes, q, x, t, u);
                lemma_ready_grows(nodes, q, k, t, u);
            } else if t == 0 {
                lemma_no_deps(nodes, q, x, u);
                lemma_no_deps(nodes, q, k, u);
            } else {
                if ready(nodes, q, x, u) {
                    lemma_ready_grows(nodes, q, x, u, t - 1);
                    let p = choose|p: int| 0 <= p < start && p < q.len() && #[trigger] q[p] == x;
                    assert(q[p] == q[a]);
                }
                if ready(nodes, q, k, u) {
                    lemma_ready_grows(nodes, q, k, u, t - 1);
                    let p = choose|p: int| 0 <= p < start && p < q.len() && #[trigger] q[p] == k;
                    assert(among_first(q, q.len() as int, k));
                }
            }
        }
    }
}

proof fn lemma_among_push(q: Seq<int>, k: int, t: int, j: int)
    requires
        0 <= t <= q.len(),
    ensures
        among_first(q.push(k), t, j) == among_first(q, t, j),
        among_first(q.push(k), q.len() as int + 1, j) == (among_first(q, q.len() as int, j) || j == k),
{
    let r = q.push(k);
    if among_first(q, t, j) {
        let p = choose|p: int| 0 <= p < t && p < q.len() && #[trigger] q[p] == j;
        assert(r[p] == j);
    }
    if among_first(r, t, j) {
        let p = choose|p: int| 0 <= p < t && p < r.len() && #[trigger] r[p] == j;
        assert(q[p] == j);
    }
    if among_first(q, q.len() as int, j) {
        let p = choose|p: int| 0 <= p < q.len() && #[trigger] q[p] == j;
        assert(r[p] == j);
    }
    if j == k {
        assert(r[q.len() as int] == j);
    }
    if among_first(r, q.len() as int + 1, j) {
        let p = choose|p: int| 0 <= p < q.len() + 1 && p < r.len() && #[trigger] r[p] == j;
        if p < q.len() {
            assert(q[p] == j);
        }
    }
}

proof fn lemma_push(nodes: Seq<NodeView>, q: Seq<int>, t: int, start: int, k: int)
    requires
        staging(nodes, q, t, start, k),
        0 <= k < nodes.len(),
        !among_first(q, q.len() as int, k),
        ready(nodes, q, k, t),
    ensures
        staging(nodes, q.push(k), t, start, k + 1),
{
    let r = q.push(k);
    let n = q.len() as int;
    assert forall|i: int, u: int| 0 <= u <= n implies #[trigger] ready(nodes, r, i, u) == ready(
        nodes,
        q,
        i,
        u,
    ) by {
        assert(q.take(u) =~= r.take(u));
        lemma_ready_prefix(nodes, q, r, i, u);
    }
    assert(r.no_duplicates()) by {
        assert forall|a: int, b: int| 0 <= a < r.len() && 0 <= b < r.len() && a != b implies r[a]
            != r[b] by {
            if a == n {
                assert(q[b] != k);
            } else if b == n {
                assert(q[a] != k);
            } else {
                assert(q[a] != q[b]);
            }
        }
    }
    assert forall|p: int| 0 <= p < r.len() implies #[trigger] ready(nodes, r, r[p], p) by {
        if p < n {
            assert(ready(nodes, q, q[p], p));
        } else {
            lemma_ready_grows(nodes, q, k, t, n);
        }
    }
    assert forall|p: int| 0 <= p < r.len() implies 0 <= #[trigger] r[p] < nodes.len() by {
        if p < n {
            assert(0 <= q[p] < nodes.len());
        }
    }
    assert forall|m: int| t > 0 && 0 <= m < nodes.len() && #[trigger] ready(
        nodes,
        r,
        m,
        t - 1,
    ) implies among_first(r, start, m) by {
        assert(ready(nodes, q, m, t - 1));
        lemma_among_push(q, k, start, m);
    }
    assert forall|p: int| t > 0 && 0 <= p < start implies #[trigger] ready(
        nodes,
        r,
        r[p],
        t - 1,
    ) by {
        assert(ready(nodes, q, q[p], t - 1));
    }
    assert forall|p: int| start <= p < r.len() implies #[trigger] ready(nodes, r, r[p], t) && r[p]
        < k + 1 by {
        if p < n {
            assert(ready(nodes, q, q[p], t) && q[p] < k);
        }
    }
    assert forall|m: int| 0 <= m < k + 1 && m < nodes.len() && #[trigger] ready(
        nodes,
        r,
        m,
        t,
    ) implies among_first(r, r.len() as int, m) by {
        assert(ready(nodes, q, m, t));
        lemma_among_push(q, k, 0, m);
    }
    assert forall|a: int, b: int|
        #![trigger r[a], r[b]]
        0 <= a < b < r.len() implies precedes(nodes, r, r[a], r[b]) by {
        if b < n {
            lemma_placed_is_ready(nodes, q, t, start, k, a);
            lemma_placed_is_ready(nodes, q, t, start, k, b);
            assert(q.take(t) =~= r.take(t));
            assert(precedes(nodes, q, q[a], q[b]));
            lemma_same_precedence(nodes, q, r, t, q[a], q[b]);
        } else {
            lemma_new_precedence(nodes, q, t, start, k, a);
        }
    }
}

proof fn lemma_skip(nodes: Seq<NodeView>, q: Seq<int>, t: int, start: int, k: int)
    requires
        staging(nodes, q, t, start, k),
        0 <= k < nodes.len(),
        among_first(q, q.len() as int, k) || !ready(nodes, q, k, t),
    ensures
        staging(nodes, q, t, start, k + 1),
{
}

proof fn lemma_settle(nodes: Seq<NodeView>, q: Seq<int>, t: int, start: int)
    requires
        staging(nodes, q, t, start, nodes.len() as int),
    ensures
        settled(nodes, q, t),
{
    assert forall|p: int| 0 <= p < q.len() implies #[trigger] ready(nodes, q, q[p], t) by {
        lemma_placed_is_ready(nodes, q, t, start, nodes.len() as int, p);
    }
}

/// The order in which the nodes of a workflow run: each after the nodes that it waits for, those
/// that are ready earlier first, and by their place in the list among those that are ready at the
/// same time. `None` where a node waits for one that is not there, or around for itself.
pub fn topo_order(nodes: &[WorkflowNode]) -> (r: Option<Vec<usize>>)
    ensures
        match r {
            Some(order) => execution_order(
                node_views(nodes@),
                order@.map_values(|x: usize| x as int),
            ),
            None => !runnable(node_views(nodes@)),
        },
{
    let ghost all = node_views(nodes@);
    let n: usize = nodes.len();
    let table = match dependency_table(nodes) {
        Some(table) => table,
        None => {
            proof {
                lemma_unknown_not_runnable(all);
            }
            return None;
        },
    };
    let mut queue: Vec<usize> = Vec::new();
    let mut spots: Vec<usize> = Vec::new();
    let mut i: usize = 0;
    while i < n
        invariant
            i <= n,
            spots@.len() == i,
            forall|k: int| 0 <= k < i ==> #[trigger] spots@[k] == n,
        decreases n - i,
    {
        spots.push(n);
        i += 1;
    }
    let mut t: usize = 0;
    proof {
        assert(ints(queue@) =~= seq![]);
        assert(staging(all, ints(queue@), 0, 0, 0));
        assert(spots_of(spots@, ints(queue@), n as int));
    }
    loop
        invariant_except_break
            t <= queue.len(),
            staging(all, ints(queue@), t as int, queue@.len() as int, 0),
            spots_of(spots@, ints(queue@), n as int),
        invariant
            all == node_views(nodes@),
            n == nodes.len(),
            table_of(table@, all),
            queue.len() <= n,
        ensures
            queue.len() <= n,
            settled(all, ints(queue@), queue@.len() as int),
        decreases n - t,
    {
        let ghost start = queue@.len() as int;
        let mut k: usize = 0;
        while k < n
            invariant
                k <= n,
                all == node_views(nodes@),
                n == nodes.len(),
                table_of(table@, all),
                t <= start <= queue.len() <= n,
                staging(all, ints(queue@), t as int, start, k as int),
                spots_of(spots@, ints(queue@), n as int),
            decreases n - k,
        {
            let ghost q = ints(queue@);
            proof {
                if spots@[k as int] < q.len() {
                    assert(q[spots@[k as int] as int] == k);
                    assert(among_first(q, q.len() as int, k as int));
                }
            }
            if spots[k] >= queue.len() && is_ready(
                &table[k],
                &spots,
                t,
                Ghost(all),
                Ghost(table@),
                Ghost(q),
                Ghost(k as int),
            ) {
                let at: usize = queue.len();
                proof {
                    lemma_push(all, q, t as int, start, k as int);
                    lemma_fits(q.push(k as int), n as int);
                }
                queue.push(k);
                spots.set(k, at);
                proof {
                    assert(ints(queue@) =~= q.push(k as int));
                    assert forall|m: int| 0 <= m < n implies {
                        ||| (#[trigger] spots@[m]) == n && !among_first(
                            q.push(k as int),
                            q.len() as int + 1,
                            m,
                        )
                        ||| spots@[m] < q.len() + 1 && q.push(k as int)[spots@[m] as int] == m
                    } by {
                        lemma_among_push(q, k as int, 0, m);
                    }
                }
            } else {
                proof {
                    lemma_skip(all, q, t as int, start, k as int);
                }
            }
            k += 1;
        }
        proof {
            lemma_settle(all, ints(queue@), t as int, start);
        }
        if t >= queue.len() {
            break ;
        }
        t += 1;
        proof {
            let q = ints(queue@);
            assert(staging(all, q, t as int, q.len() as int, 0)) by {
                assert(settled(all, q, t - 1));
            }
        }
    }
    if queue.len() == n {
        Some(queue)
    } else {
        proof {
            lemma_not_runnable(all, ints(queue@));
        }
        None
    }
}

proof fn lemma_fits(q: Seq<int>, n: int)
    requires
        0 <= n,
        q.no_duplicates(),
        forall|p: int| 0 <= p < q.len() ==> 0 <= #[trigger] q[p] < n,
    ensures
        q.len() <= n,
{
    broadcast use vstd::seq_lib::seq_to_set_is_finite;

    q.unique_seq_to_set();
    vstd::set_lib::lemma_int_range(0, n);
    assert(q.to_set().subset_of(vstd::set_lib::set_int_range(0, n)));
    vstd::set_lib::lemma_len_subset(q.to_set(), vstd::set_lib::set_int_range(0, n));
}

proof fn lemma_unknown_not_runnable(nodes: Seq<NodeView>)
    requires
        !all_known(nodes),
    ensures
        !runnable(nodes),
{
    let (i, d) = choose|i: int, d: int|
        0 <= i < nodes.len() && 0 <= d < nodes[i].deps.len() && named(
            nodes,
            #[trigger] nodes[i].deps[d],
        ) is None;
    if runnable(nodes) {
        let r = choose|r: Seq<int>| #[trigger] runs_in_order(nodes, r) && r.len() == nodes.len();
        lemma_all_numbers(r, nodes.len() as int, i);
        let p = choose|p: int| 0 <= p < r.len() && #[trigger] r[p] == i;
        assert(ready(nodes, r, r[p], p));
        assert(named(nodes, nodes[i].deps[d]) is Some);
    }
}

} // verus!
