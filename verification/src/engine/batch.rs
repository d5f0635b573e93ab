//! Adding many memories: rows are buffered, and written together.
//!
//! Planning a memory has to see the memories of the same subject that came before it, so the buffer
//! is written out whenever an incoming subject is already in it. Where scopes are capped, what is
//! evicted rests on every row before it, so the buffer is written out after every memory.

use vstd::prelude::*;

use crate::engine::apply::{edges_of, EdgeView, TripleView};
use crate::engine::plan::{planned, FoundView, PlanConfig, PlanView};
use crate::memory::cognition::{
    row_views, InputView, MemoryInput, MemoryRow, MemoryView, RowView, ScopeView,
};
use crate::runtime::types::{tenant_of, tenant_or_default};
use crate::text;

verus! {

broadcast use vstd::string::group_string_axioms;

/// Which memories a memory can contradict: the partition of its scope, and its subject.
pub type Key = (Seq<char>, Seq<char>);

/// What is buffered.
pub struct BufferView {
    pub rows: Seq<RowView>,
    pub keys: Seq<Key>,
}

/// The key of a subject in the partition of a scope.
#[derive(Debug)]
pub struct SubjectKey {
    pub partition: String,
    pub subject: String,
}

impl View for SubjectKey {
    type V = Key;

    open spec fn view(&self) -> Key {
        (self.partition@, self.subject@)
    }
}

pub open spec fn key_views(v: Seq<SubjectKey>) -> Seq<Key> {
    v.map_values(|k: SubjectKey| k@)
}

pub open spec fn opt_key(o: Option<SubjectKey>) -> Option<Key> {
    match o {
        Some(k) => Some(k@),
        None => None,
    }
}

/// The buffer of a batch. No key is in it twice.
#[derive(Debug)]
pub struct Buffer {
    rows: Vec<MemoryRow>,
    keys: Vec<SubjectKey>,
}

impl View for Buffer {
    type V = BufferView;

    closed spec fn view(&self) -> BufferView {
        BufferView { rows: row_views(self.rows@), keys: key_views(self.keys@) }
    }
}

/// Does the buffer have to be written before a memory with this key is planned?
pub open spec fn collides(buffer: BufferView, key: Option<Key>) -> bool {
    key is Some && buffer.keys.contains(key->0)
}

pub open spec fn empty_buffer() -> BufferView {
    BufferView { rows: seq![], keys: seq![] }
}

/// The buffer with what was planned for a key.
pub open spec fn extended(buffer: BufferView, key: Option<Key>, rows: Seq<RowView>) -> BufferView {
    BufferView {
        rows: buffer.rows + rows,
        keys: match key {
            Some(k) => buffer.keys.push(k),
            None => buffer.keys,
        },
    }
}

impl Buffer {
    #[verifier::type_invariant]
    spec fn distinct(self) -> bool {
        key_views(self.keys@).no_duplicates()
    }

    /// An empty buffer.
    pub fn new() -> (r: Buffer)
        ensures
            r@ == empty_buffer(),
    {
        let rows: Vec<MemoryRow> = Vec::new();
        let keys: Vec<SubjectKey> = Vec::new();
        proof {
            assert(key_views(keys@) =~= seq![]);
            assert(row_views(rows@) =~= seq![]);
        }
        Buffer { rows, keys }
    }

    fn holds(&self, key: &SubjectKey) -> (r: bool)
        ensures
            r == self@.keys.contains(key@),
    {
        let mut i: usize = 0;
        while i < self.keys.len()
            invariant
                i <= self.keys.len(),
                forall|k: int| 0 <= k < i ==> key_views(self.keys@)[k] != key@,
            decreases self.keys.len() - i,
        {
            proof {
                assert(key_views(self.keys@)[i as int] == self.keys@[i as int]@);
            }
            if text::same(self.keys[i].partition.as_str(), key.partition.as_str()) && text::same(
                self.keys[i].subject.as_str(),
                key.subject.as_str(),
            ) {
                return true;
            }
            i += 1;
        }
        false
    }

    /// Makes room for a key: where it is in the buffer, the rows come out, and are to be written
    /// before anything else is planned.
    pub fn before(self, key: &Option<SubjectKey>) -> (r: (Buffer, Option<Vec<MemoryRow>>))
        ensures
            collides(self@, opt_key(*key)) ==> r.0@ == empty_buffer() && r.1 is Some && row_views(
                r.1->0@,
            ) == self@.rows,
            !collides(self@, opt_key(*key)) ==> r.0@ == self@ && r.1 is None,
            !collides(r.0@, opt_key(*key)),
    {
        if let Some(k) = key {
            if self.holds(k) {
                let rows = self.rows;
                return (Buffer::new(), Some(rows));
            }
        }
        (self, None)
    }

    /// Buffers what was planned.
    pub fn push(self, key: Option<SubjectKey>, planned: Vec<MemoryRow>) -> (r: Buffer)
        requires
            !collides(self@, opt_key(key)),
        ensures
            r@ == extended(self@, opt_key(key), row_views(planned@)),
    {
        proof {
            use_type_invariant(&self);
        }
        let ghost before = self@;
        let ghost added = row_views(planned@);
        let mut rows = self.rows;
        let mut keys = self.keys;
        let mut planned = planned;
        let ghost old_rows = rows@;
        let ghost old_planned = planned@;
        rows.append(&mut planned);
        proof {
            assert(row_views(rows@) =~= row_views(old_rows) + row_views(old_planned));
        }
        if let Some(k) = key {
            let ghost old_keys = keys@;
            keys.push(k);
            proof {
                assert(key_views(keys@) =~= key_views(old_keys).push(k@));
            }
        }
        Buffer { rows, keys }
    }

    /// What is to be written at once: where scopes are capped, the rows come out after every memory,
    /// and the cap is enforced once they are written.
    pub fn after(self, capped: bool) -> (r: (Buffer, Option<Vec<MemoryRow>>))
        ensures
            capped ==> r.0@ == empty_buffer() && r.1 is Some && row_views(r.1->0@) == self@.rows,
            !capped ==> r.0@ == self@ && r.1 is None,
    {
        if capped {
            let rows = self.rows;
            (Buffer::new(), Some(rows))
        } else {
            (self, None)
        }
    }

    /// The rows that are left at the end.
    pub fn finish(self) -> (r: Vec<MemoryRow>)
        ensures
            row_views(r@) == self@.rows,
    {
        self.rows
    }
}

/// The scope whose partition stands in an input's key: with a tenant, as planning has it.
pub fn key_scope(input: &MemoryInput) -> (r: crate::memory::cognition::MemoryScope)
    ensures
        r@ == (ScopeView { tenant_id: tenant_or_default(input@.scope.tenant_id), ..input@.scope }),
{
    let mut scope = input.scope.copy();
    scope.tenant_id = tenant_of(input.scope.tenant_id.as_str());
    scope
}

/// Where the chunk of inputs starts and ends that is embedded together, and whether there is one.
pub fn embedding_chunk(done: usize, inputs: usize, batch_size: usize) -> (r: Option<(usize, usize)>)
    requires
        done <= inputs,
    ensures
        r == if done == inputs {
            None
        } else {
            let size = if batch_size == 0 {
                1
            } else {
                batch_size as int
            };
            Some(
                (
                    done,
                    if done + size < inputs {
                        (done + size) as usize
                    } else {
                        inputs
                    },
                ),
            )
        },
        r matches Some(c) ==> c.0 < c.1 && c.1 <= inputs,
{
    if done == inputs {
        return None;
    }
    let size: usize = if batch_size == 0 {
        1
    } else {
        batch_size
    };
    if size < inputs - done {
        Some((done, done + size))
    } else {
        Some((done, inputs))
    }
}

pub open spec fn vector_views(v: Seq<Option<Vec<u32>>>) -> Seq<Option<Seq<u32>>> {
    v.map_values(|o: Option<Vec<u32>>| crate::memory::cognition::vector_view(o))
}

/// The embeddings of a chunk: what the provider gave, where there is one for each text, and none
/// otherwise.
pub open spec fn chunk_vectors(reply: Option<Seq<Seq<u32>>>, expected: nat) -> Seq<
    Option<Seq<u32>>,
> {
    match reply {
        Some(vs) if vs.len() == expected => Seq::new(expected, |i: int| Some(vs[i])),
        _ => Seq::new(expected, |i: int| None),
    }
}

pub open spec fn bit_views(v: Seq<Vec<u32>>) -> Seq<Seq<u32>> {
    v.map_values(|x: Vec<u32>| x@)
}

/// Reads a provider's reply for a chunk of `expected` texts.
pub fn take_vectors(reply: Option<Vec<Vec<u32>>>, expected: usize) -> (r: Vec<Option<Vec<u32>>>)
    ensures
        vector_views(r@) == chunk_vectors(
            match reply {
                Some(vs) => Some(bit_views(vs@)),
                None => None,
            },
            expected as nat,
        ),
{
    let mut out: Vec<Option<Vec<u32>>> = Vec::new();
    match reply {
        Some(vs) if vs.len() == expected => {
            let mut i: usize = 0;
            while i < expected
                invariant
                    i <= expected,
                    vs.len() == expected,
                    out.len() == i,
                    forall|k: int|
                        0 <= k < i ==> vector_views(out@)[k] == Some(#[trigger] bit_views(vs@)[k]),
                decreases expected - i,
            {
                let ghost before = out@;
                out.push(Some(crate::memory::cognition::copy_bits(&vs[i])));
                proof {
                    assert forall|k: int| 0 <= k < i + 1 implies vector_views(out@)[k] == Some(
                        #[trigger] bit_views(vs@)[k],
                    ) by {
                        if k < i {
                            assert(vector_views(before)[k] == Some(bit_views(vs@)[k]));
                            assert(out@[k] == before[k]);
                        }
                    }
                }
                i += 1;
            }
            proof {
                assert(vector_views(out@) =~= chunk_vectors(
                    Some(bit_views(vs@)),
                    expected as nat,
                ));
            }
        },
        _ => {
            let mut i: usize = 0;
            while i < expected
                invariant
                    i <= expected,
                    out.len() == i,
                    forall|k: int| 0 <= k < i ==> #[trigger] vector_views(out@)[k] is None,
                decreases expected - i,
            {
                let ghost before = out@;
                out.push(None);
                proof {
                    assert forall|k: int| 0 <= k < i + 1 implies #[trigger] vector_views(
                        out@,
                    )[k] is None by {
                        if k < i {
                            assert(vector_views(before)[k] is None);
                            assert(out@[k] == before[k]);
                        }
                    }
                }
                i += 1;
            }
            proof {
                assert(vector_views(out@) =~= Seq::new(
                    expected as nat,
                    |i: int| None::<Seq<u32>>,
                ));
            }
        },
    }
    out
}

// ── A batch comes to what adding one by one does ─────────────────────────────────────

/// What is needed of one memory of a batch: the prepared input, its key, its embedding, and the
/// memory that would be created for it, when.
pub struct Item {
    pub input: InputView,
    pub key: Option<Key>,
    pub embedding: Option<Seq<u32>>,
    pub fresh: MemoryView,
    pub now: i128,
}

/// How a store answers: the active memories of a subject in a scope and a project, and the stored
/// embedding of the first.
pub type Find = spec_fn(Seq<RowView>, ScopeView, Seq<char>, Option<Seq<char>>) -> (
    Seq<MemoryView>,
    Option<Seq<u32>>,
);

/// Is a row one of a subject in a scope?
pub open spec fn concerns(row: RowView, scope: ScopeView, subject: Seq<char>) -> bool {
    row.memory.scope == scope && row.memory.subject == Some(subject)
}

/// A store that finds what was written to it: only memories of the subject and scope that were
/// asked for, and rows of others make no difference.
pub open spec fn by_subject(find: Find) -> bool {
    &&& forall|store: Seq<RowView>, scope: ScopeView, s: Seq<char>, p: Option<Seq<char>>, i: int|
        0 <= i < find(store, scope, s, p).0.len() ==> (#[trigger] find(
            store,
            scope,
            s,
            p,
        ).0[i]).scope == scope && find(store, scope, s, p).0[i].subject == Some(s)
    &&& forall|
        store: Seq<RowView>,
        more: Seq<RowView>,
        scope: ScopeView,
        s: Seq<char>,
        p: Option<Seq<char>>,
    |
        (forall|i: int| 0 <= i < more.len() ==> !concerns(#[trigger] more[i], scope, s))
            ==> #[trigger] find(store + more, scope, s, p) == find(store, scope, s, p)
}

/// The plan for an item on a store.
pub open spec fn plan_on(
    config: PlanConfig,
    find: Find,
    store: Seq<RowView>,
    item: Item,
) -> PlanView {
    let found = match item.input.subject {
        Some(s) => {
            let f = find(store, item.input.scope, s, item.input.project);
            FoundView::Subject { actives: f.0, stored: f.1 }
        },
        None => FoundView::Nothing,
    };
    planned(config, item.input, item.embedding, found, item.fresh, item.now)
}

/// The store after what exceeds the cap of a scope is evicted.
pub type Evict = spec_fn(Seq<RowView>, ScopeView) -> Seq<RowView>;

/// The triples that are read from a text.
pub type Triples = spec_fn(Seq<char>) -> Seq<TripleView>;

/// What single adds and a batch have in common: how contents are read, whether the graph is kept by
/// itself, and how scopes are capped, if they are.
pub struct Upkeep {
    pub triples: Triples,
    pub auto_graph: bool,
    pub cap: Option<Evict>,
}

/// What has been written: the rows in the store, and the edges in the graph of each tenant.
pub struct Written {
    pub store: Seq<RowView>,
    pub edges: Seq<(Seq<char>, EdgeView)>,
}

/// The edges that a row brings into the graph of its tenant.
pub open spec fn row_edges(u: Upkeep, row: RowView) -> Seq<(Seq<char>, EdgeView)> {
    edges_of(row.memory, (u.triples)(row.memory.content), u.auto_graph).map_values(
        |e: EdgeView| (tenant_or_default(row.memory.scope.tenant_id), e),
    )
}

/// The edges that rows bring, in the order in which they are written.
pub open spec fn drawn(u: Upkeep, rows: Seq<RowView>) -> Seq<(Seq<char>, EdgeView)>
    decreases rows.len(),
{
    if rows.len() == 0 {
        seq![]
    } else {
        drawn(u, rows.drop_last()) + row_edges(u, rows.last())
    }
}

/// Rows are written.
pub open spec fn put(u: Upkeep, w: Written, rows: Seq<RowView>) -> Written {
    Written { store: w.store + rows, edges: w.edges + drawn(u, rows) }
}

/// The cap of a scope is enforced, if there is one.
pub open spec fn capped(u: Upkeep, w: Written, scope: ScopeView) -> Written {
    match u.cap {
        Some(evict) => Written { store: evict(w.store, scope), ..w },
        None => w,
    }
}

/// What is written, and the plans, after the items were added one by one.
pub open spec fn one_by_one(
    config: PlanConfig,
    u: Upkeep,
    find: Find,
    w: Written,
    items: Seq<Item>,
) -> (Written, Seq<PlanView>)
    decreases items.len(),
{
    if items.len() == 0 {
        (w, seq![])
    } else {
        let plan = plan_on(config, find, w.store, items[0]);
        let next = capped(u, put(u, w, plan.rows), plan.memory.scope);
        let rest = one_by_one(config, u, find, next, items.drop_first());
        (rest.0, seq![plan] + rest.1)
    }
}

/// What is written, and the plans, after the items went through the buffer.
pub open spec fn batched(
    config: PlanConfig,
    u: Upkeep,
    find: Find,
    w: Written,
    buffer: BufferView,
    items: Seq<Item>,
) -> (Written, Seq<PlanView>)
    decreases items.len(),
{
    if items.len() == 0 {
        (put(u, w, buffer.rows), seq![])
    } else {
        let before = if collides(buffer, items[0].key) {
            (put(u, w, buffer.rows), empty_buffer())
        } else {
            (w, buffer)
        };
        let plan = plan_on(config, find, before.0.store, items[0]);
        let pushed = extended(before.1, items[0].key, plan.rows);
        let after = if u.cap is Some {
            (capped(u, put(u, before.0, pushed.rows), plan.memory.scope), empty_buffer())
        } else {
            (before.0, pushed)
        };
        let rest = batched(config, u, find, after.0, after.1, items.drop_first());
        (rest.0, seq![plan] + rest.1)
    }
}

/// An item as a batch has it: the key is that of its subject, and the new memory has its scope.
/// Only a memory with a subject, or without an embedding, rests on subjects alone.
pub open spec fn keyed(item: Item, partition: spec_fn(ScopeView) -> Seq<char>) -> bool {
    &&& item.fresh.scope == item.input.scope
    &&& match item.input.subject {
        Some(s) => item.key == Some((partition(item.input.scope), s)),
        None => item.embedding is None,
    }
}

/// Every buffered row with a subject has its key in the buffer.
pub open spec fn covered(buffer: BufferView, partition: spec_fn(ScopeView) -> Seq<char>) -> bool {
    forall|i: int|
        0 <= i < buffer.rows.len() && (#[trigger] buffer.rows[i]).memory.subject is Some
            ==> buffer.keys.contains(
            (partition(buffer.rows[i].memory.scope), buffer.rows[i].memory.subject->0),
        )
}

/// The rows of a plan are all of the item's subject and scope.
proof fn lemma_plan_rows(config: PlanConfig, find: Find, store: Seq<RowView>, item: Item, i: int)
    requires
        by_subject(find),
        item.fresh.scope == item.input.scope,
        item.input.subject is Some || item.embedding is None,
        0 <= i < plan_on(config, find, store, item).rows.len(),
    ensures
        ({
            let row = plan_on(config, find, store, item).rows[i];
            row.memory.scope == item.input.scope && row.memory.subject == item.input.subject
        }),
{
    let plan = plan_on(config, find, store, item);
    if let Some(s) = item.input.subject {
        let f = find(store, item.input.scope, s, item.input.project);
        if f.0.len() > 0 {
            assert(f.0[0].scope == item.input.scope);
            if i < f.0.len() {
                assert(f.0[i].scope == item.input.scope);
            }
        }
    }
}

proof fn lemma_drawn_add(u: Upkeep, a: Seq<RowView>, b: Seq<RowView>)
    ensures
        drawn(u, a + b) == drawn(u, a) + drawn(u, b),
    decreases b.len(),
{
    if b.len() == 0 {
        assert(a + b =~= a);
        assert(drawn(u, a) + drawn(u, b) =~= drawn(u, a));
    } else {
        assert((a + b).drop_last() =~= a + b.drop_last());
        lemma_drawn_add(u, a, b.drop_last());
        assert(drawn(u, a) + drawn(u, b.drop_last()) + row_edges(u, b.last()) =~= drawn(u, a) + (
        drawn(u, b.drop_last()) + row_edges(u, b.last())));
    }
}

/// Writing rows in two goes comes to writing them in one.
proof fn lemma_put_add(u: Upkeep, w: Written, a: Seq<RowView>, b: Seq<RowView>)
    ensures
        put(u, put(u, w, a), b) == put(u, w, a + b),
{
    lemma_drawn_add(u, a, b);
    let x = put(u, put(u, w, a), b);
    let y = put(u, w, a + b);
    assert(x.store =~= y.store);
    assert(x.edges =~= y.edges);
}

proof fn lemma_put_none(u: Upkeep, w: Written)
    ensures
        put(u, w, seq![]) == w,
{
    let x = put(u, w, seq![]);
    assert(x.store =~= w.store);
    assert(x.edges =~= w.edges);
}

/// With a buffer in between, every plan is the one that writing at once would have given.
proof fn lemma_batched(
    config: PlanConfig,
    u: Upkeep,
    find: Find,
    partition: spec_fn(ScopeView) -> Seq<char>,
    w: Written,
    buffer: BufferView,
    items: Seq<Item>,
)
    requires
        by_subject(find),
        covered(buffer, partition),
        u.cap is Some ==> buffer == empty_buffer(),
        forall|i: int| 0 <= i < items.len() ==> keyed(#[trigger] items[i], partition),
    ensures
        batched(config, u, find, w, buffer, items) == one_by_one(
            config,
            u,
            find,
            put(u, w, buffer.rows),
            items,
        ),
    decreases items.len(),
{
    if items.len() > 0 {
        let item = items[0];
        let full = put(u, w, buffer.rows);
        let before = if collides(buffer, item.key) {
            (full, empty_buffer())
        } else {
            (w, buffer)
        };
        lemma_put_none(u, full);
        assert(put(u, before.0, before.1.rows) == full);
        assert(covered(before.1, partition));
        let plan = plan_on(config, find, before.0.store, item);
        assert(plan == plan_on(config, find, full.store, item)) by {
            if let Some(s) = item.input.subject {
                assert forall|i: int| 0 <= i < before.1.rows.len() implies !concerns(
                    #[trigger] before.1.rows[i],
                    item.input.scope,
                    s,
                ) by {
                    if concerns(before.1.rows[i], item.input.scope, s) {
                        assert(before.1.keys.contains((partition(item.input.scope), s)));
                        assert(false);
                    }
                }
                assert(find(
                    before.0.store + before.1.rows,
                    item.input.scope,
                    s,
                    item.input.project,
                ) == find(before.0.store, item.input.scope, s, item.input.project));
            }
        }
        let pushed = extended(before.1, item.key, plan.rows);
        assert(covered(pushed, partition)) by {
            assert forall|i: int|
                0 <= i < pushed.rows.len() && (#[trigger] pushed.rows[i]).memory.subject
                    is Some implies pushed.keys.contains(
                (partition(pushed.rows[i].memory.scope), pushed.rows[i].memory.subject->0),
            ) by {
                let wanted = (
                    partition(pushed.rows[i].memory.scope),
                    pushed.rows[i].memory.subject->0,
                );
                if i < before.1.rows.len() {
                    assert(pushed.rows[i] == before.1.rows[i]);
                    assert(before.1.keys.contains(wanted));
                    let k = choose|k: int|
                        0 <= k < before.1.keys.len() && before.1.keys[k] == wanted;
                    assert(pushed.keys[k] == wanted);
                } else {
                    let j = i - before.1.rows.len();
                    assert(pushed.rows[i] == plan.rows[j]);
                    lemma_plan_rows(config, find, before.0.store, item, j);
                    assert(pushed.keys[before.1.keys.len() as int] == wanted);
                }
            }
        }
        assert forall|i: int| 0 <= i < items.drop_first().len() implies keyed(
            #[trigger] items.drop_first()[i],
            partition,
        ) by {
            assert(items.drop_first()[i] == items[i + 1]);
        }
        lemma_put_add(u, before.0, before.1.rows, plan.rows);
        assert(put(u, before.0, pushed.rows) == put(u, full, plan.rows));
        if u.cap is Some {
            let next = capped(u, put(u, full, plan.rows), plan.memory.scope);
            lemma_put_none(u, next);
            lemma_batched(config, u, find, partition, next, empty_buffer(), items.drop_first());
        } else {
            lemma_batched(config, u, find, partition, before.0, pushed, items.drop_first());
        }
    }
}

/// Adding a batch comes to what adding its memories one by one does: the same plans, the same rows
/// in the store, what exceeds the cap of a scope being evicted alike, and the same edges in the
/// graph. Memories without a subject that are compared by their embedding are left out: what is
/// nearest is only known once the rows are written.
pub proof fn law_batches_come_to_single_adds(
    config: PlanConfig,
    u: Upkeep,
    find: Find,
    partition: spec_fn(ScopeView) -> Seq<char>,
    w: Written,
    items: Seq<Item>,
)
    requires
        by_subject(find),
        forall|i: int| 0 <= i < items.len() ==> keyed(#[trigger] items[i], partition),
    ensures
        batched(config, u, find, w, empty_buffer(), items) == one_by_one(
            config,
            u,
            find,
            w,
            items,
        ),
{
    lemma_batched(config, u, find, partition, w, empty_buffer(), items);
    lemma_put_none(u, w);
}

} // verus!
