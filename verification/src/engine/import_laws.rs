//! What importing a document again comes to.
//!
//! The memories of one scope and one project stand on a shelf: under every subject those that are
//! active. An import adds its sections one after the other, which is what a batch comes to, and
//! expires the sections of the document that it did not produce.

use vstd::prelude::*;

use crate::engine::documents::{
    expired, expired_row, gone, law_every_outcome_is_counted, law_sweeps_miss_nothing,
    law_sweeps_take_what_is_gone, section_inputs, swept, tally,
};
use crate::engine::plan::{planned, prepared, same_content, FoundView, PlanConfig, PlanView};
use crate::engine::plan_laws::{all_written, written};
use crate::ingest::chunk::{chunks_of, subject_of};
use crate::json::JsonView;
use crate::memory::cognition::{
    InputView, MemoryOutcome, MemoryState, MemoryView, RowView, ScopeView,
};
use crate::text::listed;

verus! {

// ── The shelf ────────────────────────────────────────────────────────────────────────

/// The active memories of each subject.
pub type Shelf = Map<Seq<char>, Seq<MemoryView>>;

pub open spec fn at(shelf: Shelf, subject: Seq<char>) -> Seq<MemoryView> {
    if shelf.dom().contains(subject) {
        shelf[subject]
    } else {
        seq![]
    }
}

pub open spec fn active(m: MemoryView) -> bool {
    m.state == MemoryState::Active
}

/// What is active of some memories after rows are written.
pub open spec fn standing(memories: Seq<MemoryView>, rows: Seq<RowView>) -> Seq<MemoryView> {
    all_written(memories, rows).filter(|m: MemoryView| active(m))
}

pub open spec fn has_id(memories: Seq<MemoryView>, id: u128) -> bool {
    exists|i: int| 0 <= i < memories.len() && (#[trigger] memories[i]).id == id
}

pub open spec fn writes_id(rows: Seq<RowView>, id: u128) -> bool {
    exists|i: int| 0 <= i < rows.len() && (#[trigger] rows[i]).memory.id == id
}

/// Memories with ids of their own.
pub open spec fn told_apart(memories: Seq<MemoryView>) -> bool {
    forall|i: int, j: int|
        0 <= i < memories.len() && 0 <= j < memories.len() && i != j ==> (#[trigger] memories[i]).id
            != (#[trigger] memories[j]).id
}

/// A shelf as a store keeps it: every memory is active and under its subject, and no two share an
/// id.
pub open spec fn orderly(shelf: Shelf) -> bool {
    &&& forall|s: Seq<char>| told_apart(#[trigger] at(shelf, s))
    &&& forall|s: Seq<char>, i: int|
        0 <= i < at(shelf, s).len() ==> active(#[trigger] at(shelf, s)[i]) && at(
            shelf,
            s,
        )[i].subject == Some(s)
    &&& forall|s: Seq<char>, t: Seq<char>, id: u128|
        #[trigger] has_id(at(shelf, s), id) && #[trigger] has_id(at(shelf, t), id) ==> s == t
}

// ── Writing rows ─────────────────────────────────────────────────────────────────────

proof fn lemma_filter_all(v: Seq<MemoryView>)
    requires
        forall|i: int| 0 <= i < v.len() ==> active(#[trigger] v[i]),
    ensures
        v.filter(|m: MemoryView| active(m)) == v,
    decreases v.len(),
{
    reveal(Seq::filter);
    if v.len() > 0 {
        let rest = v.drop_last();
        assert forall|i: int| 0 <= i < rest.len() implies active(#[trigger] rest[i]) by {
            assert(rest[i] == v[i]);
        }
        lemma_filter_all(rest);
        assert(v.last() == v[v.len() - 1]);
        assert(rest.push(v.last()) =~= v);
    }
}

proof fn lemma_filter_none_active(v: Seq<MemoryView>)
    requires
        forall|i: int| 0 <= i < v.len() ==> !active(#[trigger] v[i]),
    ensures
        v.filter(|m: MemoryView| active(m)).len() == 0,
    decreases v.len(),
{
    reveal(Seq::filter);
    if v.len() > 0 {
        let rest = v.drop_last();
        assert forall|i: int| 0 <= i < rest.len() implies !active(#[trigger] rest[i]) by {
            assert(rest[i] == v[i]);
        }
        lemma_filter_none_active(rest);
        assert(v.last() == v[v.len() - 1]);
    }
}

/// Rows that retire memories: what stays active was there, and no row was written for it.
proof fn lemma_retiring(v: Seq<MemoryView>, rows: Seq<RowView>)
    requires
        told_apart(v),
        forall|i: int| 0 <= i < rows.len() ==> !active((#[trigger] rows[i]).memory),
    ensures
        told_apart(all_written(v, rows)),
        forall|i: int|
            0 <= i < all_written(v, rows).len() ==> {
                let m = #[trigger] all_written(v, rows)[i];
                &&& has_id(v, m.id) || writes_id(rows, m.id)
                &&& active(m) ==> !writes_id(rows, m.id)
            },
    decreases rows.len(),
{
    if rows.len() > 0 {
        let rest = rows.drop_last();
        let m = rows.last().memory;
        assert(rows[rows.len() - 1] == rows.last());
        assert forall|i: int| 0 <= i < rest.len() implies !active((#[trigger] rest[i]).memory) by {
            assert(rest[i] == rows[i]);
        }
        lemma_retiring(v, rest);
        let before = all_written(v, rest);
        let after = all_written(v, rows);
        assert(after == written(before, m));
        let known = exists|i: int| 0 <= i < before.len() && (#[trigger] before[i]).id == m.id;
        let k = if known {
            choose|i: int| 0 <= i < before.len() && (#[trigger] before[i]).id == m.id
        } else {
            before.len() as int
        };
        assert(after.len() == if known {
            before.len()
        } else {
            before.len() + 1
        });
        assert(after[k] == m);
        assert(writes_id(rows, m.id));
        assert forall|i: int| 0 <= i < after.len() && i != k implies #[trigger] after[i]
            == before[i] && before[i].id != m.id by {
            if known {
                assert(before[i].id != before[k].id);
            }
        }
        assert forall|i: int| 0 <= i < after.len() implies {
            let x = #[trigger] after[i];
            &&& has_id(v, x.id) || writes_id(rows, x.id)
            &&& active(x) ==> !writes_id(rows, x.id)
        } by {
            if i != k {
                let x = before[i];
                assert(after[i] == x);
                if writes_id(rest, x.id) {
                    let r = choose|r: int|
                        0 <= r < rest.len() && (#[trigger] rest[r]).memory.id == x.id;
                    assert(rows[r] == rest[r]);
                }
                if writes_id(rows, x.id) {
                    let r = choose|r: int|
                        0 <= r < rows.len() && (#[trigger] rows[r]).memory.id == x.id;
                    assert(r < rest.len());
                    assert(rest[r] == rows[r]);
                    assert(writes_id(rest, x.id));
                }
            }
        }
        assert(told_apart(after)) by {
            assert forall|i: int, j: int|
                0 <= i < after.len() && 0 <= j < after.len() && i != j implies (
            #[trigger] after[i]).id != (#[trigger] after[j]).id by {
                if i != k && j != k {
                    assert(before[i].id != before[j].id);
                }
            }
        }
    }
}

/// Where every memory is retired, none stands.
proof fn lemma_all_retired(v: Seq<MemoryView>, rows: Seq<RowView>)
    requires
        told_apart(v),
        forall|i: int| 0 <= i < rows.len() ==> !active((#[trigger] rows[i]).memory),
        forall|i: int| 0 <= i < v.len() ==> writes_id(rows, (#[trigger] v[i]).id),
    ensures
        standing(v, rows).len() == 0,
{
    lemma_retiring(v, rows);
    let after = all_written(v, rows);
    assert forall|i: int| 0 <= i < after.len() implies !active(#[trigger] after[i]) by {
        let m = after[i];
        if has_id(v, m.id) {
            let k = choose|k: int| 0 <= k < v.len() && (#[trigger] v[k]).id == m.id;
            assert(writes_id(rows, v[k].id));
        }
    }
    lemma_filter_none_active(after);
}

/// Rows of other memories, all retired, leave what stands as it is.
proof fn lemma_others_retired(v: Seq<MemoryView>, rows: Seq<RowView>)
    requires
        forall|i: int| 0 <= i < rows.len() ==> !active((#[trigger] rows[i]).memory),
        forall|i: int| 0 <= i < rows.len() ==> !has_id(v, (#[trigger] rows[i]).memory.id),
        forall|i: int| 0 <= i < v.len() ==> active(#[trigger] v[i]),
    ensures
        standing(v, rows) == v,
{
    lemma_others_behind(v, rows);
    let after = all_written(v, rows);
    let n = v.len() as int;
    let tail = after.skip(n);
    assert(after =~= v + tail);
    assert forall|i: int| 0 <= i < tail.len() implies !active(#[trigger] tail[i]) by {
        assert(tail[i] == after[n + i]);
    }
    lemma_filter_all(v);
    lemma_filter_none_active(tail);
    Seq::filter_distributes_over_add(v, tail, |m: MemoryView| active(m));
    assert(standing(v, rows) =~= v);
}

proof fn lemma_others_behind(v: Seq<MemoryView>, rows: Seq<RowView>)
    requires
        forall|i: int| 0 <= i < rows.len() ==> !active((#[trigger] rows[i]).memory),
        forall|i: int| 0 <= i < rows.len() ==> !has_id(v, (#[trigger] rows[i]).memory.id),
    ensures
        all_written(v, rows).len() >= v.len(),
        all_written(v, rows).take(v.len() as int) == v,
        forall|i: int|
            v.len() <= i < all_written(v, rows).len() ==> !active(
                #[trigger] all_written(v, rows)[i],
            ),
    decreases rows.len(),
{
    let n = v.len() as int;
    if rows.len() == 0 {
        assert(v.take(n) =~= v);
    } else {
        let rest = rows.drop_last();
        let m = rows.last().memory;
        assert(rows[rows.len() - 1] == rows.last());
        assert forall|i: int| 0 <= i < rest.len() implies !active((#[trigger] rest[i]).memory)
            && !has_id(v, rest[i].memory.id) by {
            assert(rest[i] == rows[i]);
        }
        lemma_others_behind(v, rest);
        let before = all_written(v, rest);
        let after = all_written(v, rows);
        if exists|i: int| 0 <= i < before.len() && (#[trigger] before[i]).id == m.id {
            let k = choose|i: int| 0 <= i < before.len() && (#[trigger] before[i]).id == m.id;
            if k < n {
                assert(before.take(n)[k] == v[k]);
                assert(v[k].id == m.id);
                assert(has_id(v, m.id));
            }
        }
        assert(after.take(n) =~= before.take(n));
    }
}

// ── One section ──────────────────────────────────────────────────────────────────────

/// What adding one section needs besides the section: its embedding, that of what is there, and
/// the memory that would be created for it, when.
pub struct Arrival {
    pub embedding: Option<Seq<u32>>,
    pub stored: Option<Seq<u32>>,
    pub fresh: MemoryView,
    pub now: i128,
}

/// A section is added: what was planned, and the shelf after it.
pub open spec fn add_one(config: PlanConfig, shelf: Shelf, input: InputView, a: Arrival) -> (
    Shelf,
    PlanView,
) {
    match input.subject {
        Some(s) => {
            let found = FoundView::Subject { actives: at(shelf, s), stored: a.stored };
            let plan = planned(config, input, a.embedding, found, a.fresh, a.now);
            (shelf.insert(s, standing(at(shelf, s), plan.rows)), plan)
        },
        None => (
            shelf,
            planned(config, input, a.embedding, FoundView::Nothing, a.fresh, a.now),
        ),
    }
}

/// The sections are added one after the other.
pub open spec fn add_all(
    config: PlanConfig,
    shelf: Shelf,
    inputs: Seq<InputView>,
    arrivals: Seq<Arrival>,
) -> (Shelf, Seq<PlanView>)
    decreases inputs.len(),
{
    if inputs.len() == 0 {
        (shelf, seq![])
    } else {
        let before = add_all(config, shelf, inputs.drop_last(), arrivals.drop_last());
        let one = add_one(config, before.0, inputs.last(), arrivals.last());
        (one.0, before.1.push(one.1))
    }
}

/// A new memory for a section: of its content, active, and with an id that is not in use.
pub open spec fn fits(a: Arrival, input: InputView, memories: Seq<MemoryView>) -> bool {
    &&& a.fresh.content == input.content
    &&& active(a.fresh)
    &&& !has_id(memories, a.fresh.id)
}

/// Whatever a section came to, its memory stands first, and no other memory has joined.
proof fn lemma_add_one(
    config: PlanConfig,
    input: InputView,
    a: Arrival,
    actives: Seq<MemoryView>,
)
    requires
        !config.contradiction_review,
        told_apart(actives),
        forall|i: int| 0 <= i < actives.len() ==> active(#[trigger] actives[i]),
        fits(a, input, actives),
    ensures
        ({
            let found = FoundView::Subject { actives, stored: a.stored };
            let plan = planned(config, input, a.embedding, found, a.fresh, a.now);
            let after = standing(actives, plan.rows);
            &&& after.len() > 0
            &&& after[0] == plan.memory
            &&& same_content(plan.memory.content, input.content)
            &&& told_apart(after)
            &&& forall|i: int| 0 <= i < after.len() ==> active(#[trigger] after[i])
            &&& forall|i: int|
                0 <= i < after.len() ==> has_id(actives, (#[trigger] after[i]).id) || after[i].id
                    == a.fresh.id
        }),
{
    let found = FoundView::Subject { actives, stored: a.stored };
    let plan = planned(config, input, a.embedding, found, a.fresh, a.now);
    let rows = plan.rows;
    let m = plan.memory;
    let all = all_written(actives, rows);
    if actives.len() == 0 {
        assert(rows.drop_last() =~= seq![]);
        reveal_with_fuel(all_written, 2);
        assert(all =~= seq![m]);
        lemma_filter_all(all);
    } else if same_content(actives[0].content, input.content) {
        assert(rows.drop_last() =~= seq![]);
        reveal_with_fuel(all_written, 2);
        assert(actives[0].id == m.id);
        let k = choose|i: int| 0 <= i < actives.len() && (#[trigger] actives[i]).id == m.id;
        assert(k == 0);
        assert(all == actives.update(0, m));
        assert(active(actives[0]));
        assert forall|i: int| 0 <= i < all.len() implies active(#[trigger] all[i]) by {
            if i > 0 {
                assert(all[i] == actives[i]);
            }
        }
        lemma_filter_all(all);
        assert forall|i: int| 0 <= i < all.len() implies has_id(
            actives,
            (#[trigger] all[i]).id,
        ) by {
            assert(actives[i].id == all[i].id);
        }
        assert forall|i: int, j: int|
            0 <= i < all.len() && 0 <= j < all.len() && i != j implies (#[trigger] all[i]).id != (
        #[trigger] all[j]).id by {
            assert(actives[i].id != actives[j].id);
        }
    } else {
        let closing = rows.drop_last();
        assert(rows.last().memory == m);
        assert forall|i: int| 0 <= i < closing.len() implies !active(
            (#[trigger] closing[i]).memory,
        ) by {
            assert(closing[i] == rows[i]);
        }
        assert forall|i: int| 0 <= i < actives.len() implies writes_id(
            closing,
            (#[trigger] actives[i]).id,
        ) by {
            assert(closing[i].memory.id == actives[i].id);
        }
        lemma_retiring(actives, closing);
        lemma_all_retired(actives, closing);
        let before = all_written(actives, closing);
        assert forall|i: int| 0 <= i < before.len() implies (#[trigger] before[i]).id != m.id by {
            let x = before[i];
            if writes_id(closing, x.id) {
                let r = choose|r: int|
                    0 <= r < closing.len() && (#[trigger] closing[r]).memory.id == x.id;
                assert(actives[r].id == x.id);
                assert(has_id(actives, x.id));
            }
        }
        assert(all == before.push(m));
        assert(all =~= before + seq![m]);
        Seq::filter_distributes_over_add(before, seq![m], |x: MemoryView| active(x));
        lemma_filter_all(seq![m]);
        assert(standing(actives, rows) =~= seq![m]);
    }
}

// ── All sections ─────────────────────────────────────────────────────────────────────

/// Sections with subjects of their own.
pub open spec fn addressed(inputs: Seq<InputView>) -> bool {
    &&& forall|i: int| 0 <= i < inputs.len() ==> (#[trigger] inputs[i]).subject is Some
    &&& forall|i: int, j: int|
        0 <= i < inputs.len() && 0 <= j < inputs.len() && i != j ==> (#[trigger] inputs[i]).subject
            != (#[trigger] inputs[j]).subject
}

pub open spec fn produces(inputs: Seq<InputView>, subject: Seq<char>) -> bool {
    exists|i: int| 0 <= i < inputs.len() && (#[trigger] inputs[i]).subject == Some(subject)
}

/// New memories for all sections: each fits its section, and no id is in use on the shelf.
pub open spec fn all_fit(inputs: Seq<InputView>, arrivals: Seq<Arrival>, shelf: Shelf) -> bool {
    &&& arrivals.len() == inputs.len()
    &&& forall|i: int, s: Seq<char>|
        0 <= i < inputs.len() ==> fits(
            #[trigger] arrivals[i],
            inputs[i],
            #[trigger] at(shelf, s),
        )
}

/// After the sections are added, the memory of each stands first under its subject, and what
/// stands under other subjects is as it was.
proof fn lemma_add_all(
    config: PlanConfig,
    shelf: Shelf,
    inputs: Seq<InputView>,
    arrivals: Seq<Arrival>,
)
    requires
        !config.contradiction_review,
        orderly(shelf),
        addressed(inputs),
        all_fit(inputs, arrivals, shelf),
    ensures
        ({
            let r = add_all(config, shelf, inputs, arrivals);
            &&& r.1.len() == inputs.len()
            &&& forall|i: int|
                0 <= i < inputs.len() ==> {
                    let m = #[trigger] r.1[i].memory;
                    let v = at(r.0, inputs[i].subject->0);
                    &&& v.len() > 0
                    &&& v[0] == m
                    &&& same_content(m.content, inputs[i].content)
                    &&& told_apart(v)
                    &&& forall|k: int| 0 <= k < v.len() ==> active(#[trigger] v[k])
                    &&& forall|k: int|
                        0 <= k < v.len() ==> has_id(
                            at(shelf, inputs[i].subject->0),
                            (#[trigger] v[k]).id,
                        ) || v[k].id == arrivals[i].fresh.id
                }
            &&& forall|s: Seq<char>|
                !produces(inputs, s) ==> #[trigger] at(r.0, s) == at(shelf, s)
        }),
    decreases inputs.len(),
{
    if inputs.len() > 0 {
        let rest = inputs.drop_last();
        let few = arrivals.drop_last();
        let input = inputs.last();
        let a = arrivals.last();
        let n = inputs.len() - 1;
        assert(inputs[n] == input && arrivals[n] == a);
        assert forall|i: int| 0 <= i < rest.len() implies (#[trigger] rest[i]).subject is Some by {
            assert(rest[i] == inputs[i]);
        }
        assert forall|i: int, j: int|
            0 <= i < rest.len() && 0 <= j < rest.len() && i != j implies (
        #[trigger] rest[i]).subject != (#[trigger] rest[j]).subject by {
            assert(rest[i] == inputs[i] && rest[j] == inputs[j]);
        }
        assert forall|i: int, s: Seq<char>| 0 <= i < rest.len() implies fits(
            #[trigger] few[i],
            rest[i],
            #[trigger] at(shelf, s),
        ) by {
            assert(few[i] == arrivals[i] && rest[i] == inputs[i]);
        }
        lemma_add_all(config, shelf, rest, few);
        let b = add_all(config, shelf, rest, few);
        let r = add_all(config, shelf, inputs, arrivals);
        let s = input.subject->0;
        assert(!produces(rest, s)) by {
            if produces(rest, s) {
                let i = choose|i: int|
                    0 <= i < rest.len() && (#[trigger] rest[i]).subject == Some(s);
                assert(rest[i] == inputs[i]);
                assert(inputs[i].subject == inputs[n].subject);
            }
        }
        let actives = at(shelf, s);
        assert(at(b.0, s) == actives);
        assert(fits(a, input, actives));
        lemma_add_one(config, input, a, actives);
        assert forall|i: int| 0 <= i < inputs.len() implies {
            let m = #[trigger] r.1[i].memory;
            let v = at(r.0, inputs[i].subject->0);
            &&& v.len() > 0
            &&& v[0] == m
            &&& same_content(m.content, inputs[i].content)
            &&& told_apart(v)
            &&& forall|k: int| 0 <= k < v.len() ==> active(#[trigger] v[k])
            &&& forall|k: int|
                0 <= k < v.len() ==> has_id(
                    at(shelf, inputs[i].subject->0),
                    (#[trigger] v[k]).id,
                ) || v[k].id == arrivals[i].fresh.id
        } by {
            if i < n {
                assert(rest[i] == inputs[i] && few[i] == arrivals[i]);
                assert(inputs[i].subject != inputs[n].subject);
                assert(r.1[i] == b.1[i]);
                assert(b.1[i].memory == r.1[i].memory);
                assert(at(r.0, inputs[i].subject->0) == at(b.0, rest[i].subject->0));
            } else {
                assert(at(r.0, s) == standing(actives, r.1[i].rows));
            }
        }
        assert forall|t: Seq<char>| !produces(inputs, t) implies #[trigger] at(r.0, t) == at(
            shelf,
            t,
        ) by {
            assert(inputs[n].subject == Some(s));
            assert(t != s);
            if produces(rest, t) {
                let i = choose|i: int|
                    0 <= i < rest.len() && (#[trigger] rest[i]).subject == Some(t);
                assert(inputs[i].subject == Some(t));
            }
            assert(at(b.0, t) == at(shelf, t));
        }
    }
}

/// Where the memory that stands first under each subject says what the section says, every section
/// is confirmed.
proof fn lemma_all_confirmed(
    config: PlanConfig,
    shelf: Shelf,
    inputs: Seq<InputView>,
    arrivals: Seq<Arrival>,
)
    requires
        addressed(inputs),
        arrivals.len() == inputs.len(),
        forall|i: int|
            0 <= i < inputs.len() ==> {
                let v = at(shelf, (#[trigger] inputs[i]).subject->0);
                v.len() > 0 && same_content(v[0].content, inputs[i].content)
            },
    ensures
        ({
            let r = add_all(config, shelf, inputs, arrivals);
            &&& r.1.len() == inputs.len()
            &&& forall|i: int|
                0 <= i < inputs.len() ==> {
                    let plan = #[trigger] r.1[i];
                    let first = at(shelf, inputs[i].subject->0)[0];
                    &&& plan.outcome == MemoryOutcome::Confirmed
                    &&& plan.memory.id == first.id
                    &&& plan.memory.content == first.content
                    &&& plan.rows.len() == 1
                    &&& plan.rows[0].memory == plan.memory
                }
            &&& forall|s: Seq<char>|
                !produces(inputs, s) ==> #[trigger] at(r.0, s) == at(shelf, s)
        }),
    decreases inputs.len(),
{
    if inputs.len() > 0 {
        let rest = inputs.drop_last();
        let few = arrivals.drop_last();
        let n = inputs.len() - 1;
        assert(inputs[n] == inputs.last());
        assert forall|i: int| 0 <= i < rest.len() implies (#[trigger] rest[i]).subject is Some && {
            let v = at(shelf, rest[i].subject->0);
            v.len() > 0 && same_content(v[0].content, rest[i].content)
        } by {
            assert(rest[i] == inputs[i]);
        }
        assert forall|i: int, j: int|
            0 <= i < rest.len() && 0 <= j < rest.len() && i != j implies (
        #[trigger] rest[i]).subject != (#[trigger] rest[j]).subject by {
            assert(rest[i] == inputs[i] && rest[j] == inputs[j]);
        }
        lemma_all_confirmed(config, shelf, rest, few);
        let b = add_all(config, shelf, rest, few);
        let r = add_all(config, shelf, inputs, arrivals);
        let s = inputs[n].subject->0;
        assert(!produces(rest, s)) by {
            if produces(rest, s) {
                let i = choose|i: int|
                    0 <= i < rest.len() && (#[trigger] rest[i]).subject == Some(s);
                assert(rest[i] == inputs[i]);
                assert(inputs[i].subject == inputs[n].subject);
            }
        }
        assert(at(b.0, s) == at(shelf, s));
        assert forall|i: int| 0 <= i < inputs.len() implies {
            let plan = #[trigger] r.1[i];
            let first = at(shelf, inputs[i].subject->0)[0];
            &&& plan.outcome == MemoryOutcome::Confirmed
            &&& plan.memory.id == first.id
            &&& plan.memory.content == first.content
            &&& plan.rows.len() == 1
            &&& plan.rows[0].memory == plan.memory
        } by {
            if i < n {
                assert(r.1[i] == b.1[i]);
                assert(rest[i] == inputs[i]);
            }
        }
        assert forall|t: Seq<char>| !produces(inputs, t) implies #[trigger] at(r.0, t) == at(
            shelf,
            t,
        ) by {
            assert(inputs[n].subject == Some(s));
            if produces(rest, t) {
                let i = choose|i: int|
                    0 <= i < rest.len() && (#[trigger] rest[i]).subject == Some(t);
                assert(inputs[i].subject == Some(t));
            }
            assert(at(b.0, t) == at(shelf, t));
        }
    }
}

// ── The import ───────────────────────────────────────────────────────────────────────

/// The sections of a document as they are added: with the tenant filled in, and with their
/// subjects normalised.
pub open spec fn imported(
    inputs: Seq<InputView>,
    normal: spec_fn(Seq<char>) -> Seq<char>,
) -> Seq<InputView> {
    inputs.map_values(|i: InputView| prepared(i, Some(normal(i.subject->0))))
}

/// The subjects of the sections.
pub open spec fn subjects(inputs: Seq<InputView>) -> Seq<Seq<char>> {
    inputs.map_values(|i: InputView| i.subject->0)
}

/// The shelf after rows are written that retire memories.
pub open spec fn cleared(shelf: Shelf, rows: Seq<RowView>) -> Shelf {
    shelf.map_values(|v: Seq<MemoryView>| standing(v, rows))
}

/// Are these the memories of a document, those under the subjects that are `within` it?
pub open spec fn lists_document(
    previous: Seq<MemoryView>,
    shelf: Shelf,
    within: spec_fn(Seq<char>) -> bool,
) -> bool {
    &&& forall|k: int|
        0 <= k < previous.len() ==> {
            let m = #[trigger] previous[k];
            m.subject is Some && within(m.subject->0) && at(shelf, m.subject->0).contains(m)
        }
    &&& forall|s: Seq<char>, i: int|
        within(s) && 0 <= i < at(shelf, s).len() ==> previous.contains(#[trigger] at(shelf, s)[i])
}

/// What one import comes to: the sections are added, and what the document had before and does not
/// have any more is expired.
pub open spec fn import(
    config: PlanConfig,
    shelf: Shelf,
    inputs: Seq<InputView>,
    arrivals: Seq<Arrival>,
    previous: Seq<MemoryView>,
    now: i128,
) -> (Shelf, Seq<PlanView>, Seq<RowView>) {
    let added = add_all(config, shelf, inputs, arrivals);
    let rows = swept(previous, subjects(inputs), now);
    (cleared(added.0, rows), added.1, rows)
}

pub open spec fn outcomes(plans: Seq<PlanView>) -> Seq<MemoryOutcome> {
    plans.map_values(|p: PlanView| p.outcome)
}

proof fn lemma_cleared(shelf: Shelf, rows: Seq<RowView>, s: Seq<char>)
    ensures
        at(shelf, s).len() > 0 ==> at(cleared(shelf, rows), s) == standing(at(shelf, s), rows),
        at(shelf, s).len() == 0 && shelf.dom().contains(s) ==> at(cleared(shelf, rows), s)
            == standing(seq![], rows),
        !shelf.dom().contains(s) ==> at(cleared(shelf, rows), s).len() == 0,
{
    if shelf.dom().contains(s) && at(shelf, s).len() == 0 {
        assert(at(shelf, s) =~= seq![]);
    }
}

/// After an import every section's memory stands first under its subject, and of the document
/// nothing else is left.
proof fn lemma_import(
    config: PlanConfig,
    shelf: Shelf,
    inputs: Seq<InputView>,
    arrivals: Seq<Arrival>,
    previous: Seq<MemoryView>,
    within: spec_fn(Seq<char>) -> bool,
    now: i128,
)
    requires
        !config.contradiction_review,
        orderly(shelf),
        addressed(inputs),
        all_fit(inputs, arrivals, shelf),
        lists_document(previous, shelf, within),
    ensures
        ({
            let r = import(config, shelf, inputs, arrivals, previous, now);
            &&& r.1.len() == inputs.len()
            &&& forall|i: int|
                0 <= i < inputs.len() ==> {
                    let m = #[trigger] r.1[i].memory;
                    let v = at(r.0, inputs[i].subject->0);
                    v.len() > 0 && v[0] == m && same_content(m.content, inputs[i].content)
                }
            &&& forall|s: Seq<char>|
                within(s) && !produces(inputs, s) ==> (#[trigger] at(r.0, s)).len() == 0
        }),
{
    let added = add_all(config, shelf, inputs, arrivals);
    let produced = subjects(inputs);
    let rows = swept(previous, produced, now);
    let r = import(config, shelf, inputs, arrivals, previous, now);
    lemma_add_all(config, shelf, inputs, arrivals);
    assert forall|i: int| 0 <= i < rows.len() implies !active((#[trigger] rows[i]).memory) && exists|
        k: int,
    |
        0 <= k < previous.len() && gone(#[trigger] previous[k], produced) && rows[i].memory.id
            == previous[k].id by {
        law_sweeps_take_what_is_gone(previous, produced, now, i);
        let k = choose|k: int|
            0 <= k < previous.len() && gone(#[trigger] previous[k], produced)
                && rows[i].memory == expired(previous[k], now);
        assert(rows[i].memory.id == previous[k].id);
    }
    assert forall|i: int| 0 <= i < inputs.len() implies {
        let m = #[trigger] r.1[i].memory;
        let v = at(r.0, inputs[i].subject->0);
        v.len() > 0 && v[0] == m && same_content(m.content, inputs[i].content)
    } by {
        let s = inputs[i].subject->0;
        let v = at(added.0, s);
        assert(added.1[i].memory == r.1[i].memory);
        assert(produced[i] == s);
        assert forall|j: int| 0 <= j < rows.len() implies !has_id(
            v,
            (#[trigger] rows[j]).memory.id,
        ) by {
            let id = rows[j].memory.id;
            let k = choose|k: int|
                0 <= k < previous.len() && gone(#[trigger] previous[k], produced)
                    && rows[j].memory.id == previous[k].id;
            let old = previous[k];
            let t = old.subject->0;
            assert(!listed(produced, t));
            assert(t != s) by {
                if t == s {
                    assert(produced[i] == t);
                }
            }
            let x = choose|x: int| 0 <= x < at(shelf, t).len() && at(shelf, t)[x] == old;
            assert(at(shelf, t)[x].id == id);
            assert(has_id(at(shelf, t), id));
            if has_id(v, id) {
                let y = choose|y: int| 0 <= y < v.len() && (#[trigger] v[y]).id == id;
                assert(has_id(at(shelf, s), v[y].id) || v[y].id == arrivals[i].fresh.id);
                assert(fits(arrivals[i], inputs[i], at(shelf, t)));
            }
        }
        lemma_others_retired(v, rows);
        lemma_cleared(added.0, rows, s);
    }
    assert forall|s: Seq<char>| within(s) && !produces(inputs, s) implies (#[trigger] at(
        r.0,
        s,
    )).len() == 0 by {
        let v = at(added.0, s);
        assert(v == at(shelf, s));
        lemma_cleared(added.0, rows, s);
        assert(!listed(produced, s)) by {
            if listed(produced, s) {
                let i = choose|i: int| 0 <= i < produced.len() && produced[i] == s;
                assert(inputs[i].subject == Some(s));
            }
        }
        assert forall|i: int| 0 <= i < v.len() implies writes_id(rows, (#[trigger] v[i]).id) by {
            assert(at(shelf, s)[i].subject == Some(s));
            assert(previous.contains(at(shelf, s)[i]));
            let k = choose|k: int| 0 <= k < previous.len() && previous[k] == v[i];
            assert(gone(previous[k], produced));
            law_sweeps_miss_nothing(previous, produced, now);
            assert(rows.contains(expired_row(previous[k], now)));
            let j = choose|j: int| 0 <= j < rows.len() && rows[j] == expired_row(previous[k], now);
            assert(rows[j].memory.id == v[i].id);
        }
        assert(told_apart(at(shelf, s)));
        lemma_all_retired(v, rows);
        if v.len() == 0 {
            assert(v =~= seq![]);
        }
    }
}

/// What a section comes to rests on what was active under its subject before the import, and not on
/// the other sections: it is inserted where there was nothing, confirmed where it reads the same,
/// and replaces what was there otherwise.
pub proof fn law_sections_go_by_what_was_there(
    config: PlanConfig,
    shelf: Shelf,
    inputs: Seq<InputView>,
    arrivals: Seq<Arrival>,
    i: int,
)
    requires
        !config.contradiction_review,
        orderly(shelf),
        addressed(inputs),
        all_fit(inputs, arrivals, shelf),
        0 <= i < inputs.len(),
    ensures
        ({
            let outcome = add_all(config, shelf, inputs, arrivals).1[i].outcome;
            let there = at(shelf, inputs[i].subject->0);
            outcome == if there.len() == 0 {
                MemoryOutcome::Inserted
            } else if same_content(there[0].content, inputs[i].content) {
                MemoryOutcome::Confirmed
            } else {
                MemoryOutcome::Superseded
            }
        }),
    decreases inputs.len(),
{
    let rest = inputs.drop_last();
    let few = arrivals.drop_last();
    let n = inputs.len() - 1;
    assert forall|k: int| 0 <= k < rest.len() implies (#[trigger] rest[k]).subject is Some by {
        assert(rest[k] == inputs[k]);
    }
    assert forall|k: int, j: int|
        0 <= k < rest.len() && 0 <= j < rest.len() && k != j implies (#[trigger] rest[k]).subject
        != (#[trigger] rest[j]).subject by {
        assert(rest[k] == inputs[k] && rest[j] == inputs[j]);
    }
    assert forall|k: int, s: Seq<char>| 0 <= k < rest.len() implies fits(
        #[trigger] few[k],
        rest[k],
        #[trigger] at(shelf, s),
    ) by {
        assert(few[k] == arrivals[k] && rest[k] == inputs[k]);
    }
    lemma_add_all(config, shelf, rest, few);
    let b = add_all(config, shelf, rest, few);
    if i < n {
        law_sections_go_by_what_was_there(config, shelf, rest, few, i);
        assert(rest[i] == inputs[i]);
        assert(add_all(config, shelf, inputs, arrivals).1[i] == b.1[i]);
    } else {
        let s = inputs[n].subject->0;
        assert(!produces(rest, s)) by {
            if produces(rest, s) {
                let k = choose|k: int|
                    0 <= k < rest.len() && (#[trigger] rest[k]).subject == Some(s);
                assert(rest[k] == inputs[k]);
                assert(inputs[k].subject == inputs[n].subject);
            }
        }
        assert(at(b.0, s) == at(shelf, s));
    }
}

/// Importing a document that has not changed changes nothing: every section is confirmed, in the
/// memory that it had and with its text, and none is inserted, replaced or expired. `normal` is how
/// subjects are normalised, which tells those of the document apart (one that makes no more alike
/// than case and white space do always does), and `within` which subjects the store counts to the
/// document; each import is given what the store held of the document before it, and new memories
/// for its sections.
pub proof fn law_reimport_changes_nothing(
    config: PlanConfig,
    scope: ScopeView,
    path: Seq<char>,
    markdown: Seq<char>,
    metadata: JsonView,
    valid_from: Option<i128>,
    project: Option<Seq<char>>,
    target: nat,
    max: nat,
    normal: spec_fn(Seq<char>) -> Seq<char>,
    within: spec_fn(Seq<char>) -> bool,
    shelf: Shelf,
    arrivals: Seq<Arrival>,
    previous: Seq<MemoryView>,
    now: i128,
    later_arrivals: Seq<Arrival>,
    later_previous: Seq<MemoryView>,
    later: i128,
)
    requires
        !config.contradiction_review,
        orderly(shelf),
        ({
            let chunks = chunks_of(markdown, target, max);
            let inputs = imported(
                section_inputs(scope, path, metadata, valid_from, project, chunks),
                normal,
            );
            let first = import(config, shelf, inputs, arrivals, previous, now);
            &&& forall|i: int|
                0 <= i < chunks.len() ==> normal(
                    #[trigger] subject_of(chunks[i].0, path, Some(chunks[i].1)),
                ).len() > 0
            &&& forall|i: int, j: int|
                0 <= i < chunks.len() && 0 <= j < chunks.len() && i != j ==> normal(
                    #[trigger] subject_of(chunks[i].0, path, Some(chunks[i].1)),
                ) != normal(#[trigger] subject_of(chunks[j].0, path, Some(chunks[j].1)))
            &&& all_fit(inputs, arrivals, shelf)
            &&& lists_document(previous, shelf, within)
            &&& later_arrivals.len() == inputs.len()
            &&& lists_document(later_previous, first.0, within)
        }),
    ensures
        ({
            let chunks = chunks_of(markdown, target, max);
            let inputs = imported(
                section_inputs(scope, path, metadata, valid_from, project, chunks),
                normal,
            );
            let first = import(config, shelf, inputs, arrivals, previous, now);
            let again = import(
                config,
                first.0,
                inputs,
                later_arrivals,
                later_previous,
                later,
            );
            &&& first.1.len() == chunks.len()
            &&& again.1.len() == chunks.len()
            &&& forall|i: int|
                0 <= i < chunks.len() ==> {
                    let plan = #[trigger] again.1[i];
                    &&& plan.outcome == MemoryOutcome::Confirmed
                    &&& plan.memory.id == first.1[i].memory.id
                    &&& plan.memory.content == first.1[i].memory.content
                    &&& same_content(plan.memory.content, chunks[i].0.text)
                    &&& plan.rows.len() == 1
                    &&& plan.rows[0].memory == plan.memory
                }
            &&& again.2.len() == 0
            &&& tally(outcomes(first.1), MemoryOutcome::Inserted, MemoryOutcome::Inserted) + tally(
                outcomes(first.1),
                MemoryOutcome::Confirmed,
                MemoryOutcome::Confirmed,
            ) + tally(outcomes(first.1), MemoryOutcome::Superseded, MemoryOutcome::Merged)
                == chunks.len()
            &&& tally(
                outcomes(again.1),
                MemoryOutcome::Confirmed,
                MemoryOutcome::Confirmed,
            ) == chunks.len()
            &&& tally(outcomes(again.1), MemoryOutcome::Inserted, MemoryOutcome::Inserted) == 0
            &&& tally(outcomes(again.1), MemoryOutcome::Superseded, MemoryOutcome::Merged) == 0
        }),
{
    let chunks = chunks_of(markdown, target, max);
    let raw = section_inputs(scope, path, metadata, valid_from, project, chunks);
    let inputs = imported(raw, normal);
    assert forall|i: int| 0 <= i < inputs.len() implies (#[trigger] inputs[i]).subject == Some(
        normal(subject_of(chunks[i].0, path, Some(chunks[i].1))),
    ) && inputs[i].content == chunks[i].0.text by {
        assert(inputs[i] == prepared(raw[i], Some(normal(raw[i].subject->0))));
    }
    assert(addressed(inputs)) by {
        assert forall|i: int, j: int|
            0 <= i < inputs.len() && 0 <= j < inputs.len() && i != j implies (
        #[trigger] inputs[i]).subject != (#[trigger] inputs[j]).subject by {
            let x = subject_of(chunks[i].0, path, Some(chunks[i].1));
            let y = subject_of(chunks[j].0, path, Some(chunks[j].1));
            assert(normal(x) != normal(y));
        }
    }
    let first = import(config, shelf, inputs, arrivals, previous, now);
    lemma_import(config, shelf, inputs, arrivals, previous, within, now);
    assert forall|i: int| 0 <= i < inputs.len() implies {
        let v = at(first.0, (#[trigger] inputs[i]).subject->0);
        v.len() > 0 && same_content(v[0].content, inputs[i].content)
    } by {
        let m = first.1[i].memory;
        assert(same_content(m.content, inputs[i].content));
    }
    lemma_all_confirmed(config, first.0, inputs, later_arrivals);
    let again = import(config, first.0, inputs, later_arrivals, later_previous, later);
    assert forall|i: int| 0 <= i < chunks.len() implies {
        let plan = #[trigger] again.1[i];
        &&& plan.outcome == MemoryOutcome::Confirmed
        &&& plan.memory.id == first.1[i].memory.id
        &&& plan.memory.content == first.1[i].memory.content
        &&& same_content(plan.memory.content, chunks[i].0.text)
        &&& plan.rows.len() == 1
        &&& plan.rows[0].memory == plan.memory
    } by {
        assert(inputs[i].content == chunks[i].0.text);
        assert(first.1[i].memory == at(first.0, inputs[i].subject->0)[0]);
    }
    let produced = subjects(inputs);
    assert forall|k: int| 0 <= k < later_previous.len() implies !gone(
        #[trigger] later_previous[k],
        produced,
    ) by {
        let m = later_previous[k];
        let s = m.subject->0;
        if !listed(produced, s) {
            if produces(inputs, s) {
                let i = choose|i: int|
                    0 <= i < inputs.len() && (#[trigger] inputs[i]).subject == Some(s);
                assert(produced[i] == s);
            }
            assert(at(first.0, s).len() == 0);
        }
    }
    law_sweeps_miss_nothing(later_previous, produced, later);
    lemma_tally_all(outcomes(again.1));
    let came = outcomes(first.1);
    assert forall|i: int| 0 <= i < came.len() implies (#[trigger] came[i])
        != MemoryOutcome::Conflict by {
        law_sections_go_by_what_was_there(config, shelf, inputs, arrivals, i);
    }
    lemma_no_conflict(came);
    law_every_outcome_is_counted(came);
}

proof fn lemma_no_conflict(v: Seq<MemoryOutcome>)
    requires
        forall|i: int| 0 <= i < v.len() ==> (#[trigger] v[i]) != MemoryOutcome::Conflict,
    ensures
        tally(v, MemoryOutcome::Conflict, MemoryOutcome::Conflict) == 0,
    decreases v.len(),
{
    if v.len() > 0 {
        let rest = v.drop_last();
        assert forall|i: int| 0 <= i < rest.len() implies (#[trigger] rest[i])
            != MemoryOutcome::Conflict by {
            assert(rest[i] == v[i]);
        }
        lemma_no_conflict(rest);
        assert(v.last() == v[v.len() - 1]);
    }
}

proof fn lemma_tally_all(v: Seq<MemoryOutcome>)
    requires
        forall|i: int| 0 <= i < v.len() ==> (#[trigger] v[i]) == MemoryOutcome::Confirmed,
    ensures
        tally(v, MemoryOutcome::Confirmed, MemoryOutcome::Confirmed) == v.len(),
        tally(v, MemoryOutcome::Inserted, MemoryOutcome::Inserted) == 0,
        tally(v, MemoryOutcome::Superseded, MemoryOutcome::Merged) == 0,
    decreases v.len(),
{
    if v.len() > 0 {
        let rest = v.drop_last();
        assert forall|i: int| 0 <= i < rest.len() implies (#[trigger] rest[i])
            == MemoryOutcome::Confirmed by {
            assert(rest[i] == v[i]);
        }
        lemma_tally_all(rest);
        assert(v.last() == v[v.len() - 1]);
    }
}

} // verus!
