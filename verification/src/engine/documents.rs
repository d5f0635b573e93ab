//! Documents as memories: one for each section, and what vanished is expired.

use vstd::prelude::*;

use crate::ingest::chunk::{
    chunk_markdown, chunk_views, chunks_of, subject_of, Chunk, ChunkOptions, ChunkView,
};
use crate::ingest::promote::{covers, promote, promotion, vendor_of, PromotionView};
use crate::json;
use crate::json::{field_views, lookup, with_field, Json, JsonView};
use crate::memory::cognition::{
    copy_opt, input_views, memory_views, row_views, InputView, Memory, MemoryAdd, MemoryInput,
    MemoryOutcome, MemoryRow, MemoryScope, MemoryState, MemoryView, RowView, ScopeView,
};
use crate::memory::event::{Event, EventView};
use crate::seqs::{lemma_filter_none, lemma_filter_take};
use crate::text;
use crate::text::{begins, folded, listed, opt_view, views};

verus! {

broadcast use vstd::string::group_string_axioms;

/// One document to ingest.
#[derive(Debug)]
pub struct DocumentIngest<'a> {
    /// Its stable identity: no two documents share one.
    pub path: &'a str,
    /// The Markdown.
    pub content: &'a str,
    /// What is attached to every section.
    pub metadata: Json,
    /// Since when this version is true; the instant of the import where it is not said.
    pub valid_from: Option<i128>,
    pub project: Option<String>,
}

/// What importing a document changed.
#[derive(Debug)]
pub struct DocumentIngestResult {
    pub path: String,
    /// The sections that the document was cut into.
    pub chunks: usize,
    /// Those that were not there before.
    pub inserted: usize,
    /// Those whose text changed.
    pub superseded: usize,
    /// Those that are as they were.
    pub confirmed: usize,
    /// Sections that are gone, and were expired.
    pub removed: usize,
}

// ── The sections ─────────────────────────────────────────────────────────────────────

/// Where a section comes from, where the importer does not say.
pub open spec fn document_origin(path: Seq<char>) -> JsonView {
    JsonView::Object(
        seq![
            ("source"@, JsonView::Str("document"@)),
            ("ref"@, JsonView::Str(path)),
        ],
    )
}

/// The metadata of a section: that of the document, its path, its origin unless that is said, and
/// where the section stands. What is no object is left as it is.
pub open spec fn section_metadata(metadata: JsonView, path: Seq<char>, c: ChunkView) -> JsonView {
    match metadata {
        JsonView::Object(fields) => {
            let addressed = with_field(fields, "doc_path"@, JsonView::Str(path));
            let attributed = if lookup(addressed, "provenance"@) is Some {
                addressed
            } else {
                with_field(addressed, "provenance"@, document_origin(path))
            };
            let placed = with_field(
                attributed,
                "heading_path"@,
                JsonView::Array(json::string_views(c.heading_path)),
            );
            JsonView::Object(
                with_field(placed, "ordinal"@, json::integer_of(c.ordinal as u64)),
            )
        },
        other => other,
    }
}

pub open spec fn section_input(
    scope: ScopeView,
    path: Seq<char>,
    metadata: JsonView,
    valid_from: Option<i128>,
    project: Option<Seq<char>>,
    chunk: (ChunkView, nat),
) -> InputView {
    InputView {
        scope,
        subject: Some(subject_of(chunk.0, path, Some(chunk.1))),
        content: chunk.0.text,
        importance: None,
        source_event_ids: seq![],
        metadata: section_metadata(metadata, path, chunk.0),
        mem_type: Some("chunk"@),
        valid_from,
        project,
    }
}

pub open spec fn section_inputs(
    scope: ScopeView,
    path: Seq<char>,
    metadata: JsonView,
    valid_from: Option<i128>,
    project: Option<Seq<char>>,
    chunks: Seq<(ChunkView, nat)>,
) -> Seq<InputView> {
    chunks.map_values(
        |c: (ChunkView, nat)| section_input(scope, path, metadata, valid_from, project, c),
    )
}

fn describe(metadata: &Json, path: &str, chunk: &Chunk) -> (r: Json)
    ensures
        r@ == section_metadata(metadata@, path@, chunk@),
{
    let meta = metadata.copy();
    match meta {
        Json::Object(fields) => {
            let mut fields = fields;
            let ghost start = field_views(fields@);
            proof {
                assert(json::tree(meta)->Object_0 =~= start);
            }
            json::set_field(&mut fields, "doc_path", json::string(path));
            let ghost addressed = field_views(fields@);
            let known = json::object(fields);
            let said = known.get("provenance").is_some();
            let mut fields: Vec<(String, Json)> = match known {
                Json::Object(f) => f,
                _ => Vec::new(),
            };
            proof {
                assert(known is Object);
                assert(field_views(fields@) =~= json::tree(known)->Object_0);
            }
            if !said {
                json::set_field(
                    &mut fields,
                    "provenance",
                    json::object2(
                        "source",
                        json::string("document"),
                        "ref",
                        json::string(path),
                    ),
                );
            }
            json::set_field(&mut fields, "heading_path", json::strings(&chunk.heading_path));
            json::set_field(&mut fields, "ordinal", json::integer(chunk.ordinal as u64));
            json::object(fields)
        },
        other => other,
    }
}

/// The memories of a document's sections, in order.
pub fn document_inputs(doc: &DocumentIngest, scope: &MemoryScope, opts: &ChunkOptions) -> (r: Vec<
    MemoryInput,
>)
    ensures
        input_views(r@) == section_inputs(
            scope@,
            doc.path@,
            doc.metadata@,
            doc.valid_from,
            opt_view(doc.project),
            chunks_of(doc.content@, opts.target_chars as nat, opts.max_chars as nat),
        ),
{
    let chunks = chunk_markdown(doc.content, opts);
    let ghost all = section_inputs(
        scope@,
        doc.path@,
        doc.metadata@,
        doc.valid_from,
        opt_view(doc.project),
        chunk_views(chunks@),
    );
    let mut out: Vec<MemoryInput> = Vec::new();
    let mut i: usize = 0;
    proof {
        assert(input_views(out@) =~= all.take(0));
    }
    while i < chunks.len()
        invariant
            i <= chunks.len(),
            all == section_inputs(
                scope@,
                doc.path@,
                doc.metadata@,
                doc.valid_from,
                opt_view(doc.project),
                chunk_views(chunks@),
            ),
            input_views(out@) == all.take(i as int),
        decreases chunks.len() - i,
    {
        let ghost before = out@;
        let ids: Vec<u128> = Vec::new();
        let input = MemoryInput {
            scope: scope.copy(),
            subject: Some(chunks[i].0.subject(doc.path, Some(chunks[i].1))),
            content: chunks[i].0.text.clone(),
            importance: None,
            source_event_ids: ids,
            metadata: describe(&doc.metadata, doc.path, &chunks[i].0),
            mem_type: Some("chunk".to_owned()),
            valid_from: doc.valid_from,
            project: copy_opt(&doc.project),
        };
        proof {
            assert(ids@ =~= seq![]);
            assert(chunk_views(chunks@)[i as int] == (
                chunks@[i as int].0@,
                chunks@[i as int].1 as nat,
            ));
            assert(input@ == all[i as int]);
        }
        out.push(input);
        i += 1;
        proof {
            assert(input_views(out@) =~= input_views(before).push(all[i - 1]));
            assert(all.take(i as int) =~= all.take(i - 1).push(all[i - 1]));
        }
    }
    proof {
        assert(all.take(all.len() as int) =~= all);
    }
    out
}

/// Every section says where it comes from: a tenant that asks for provenance does not turn the
/// importer off. What is no object can hold no origin, and is left out.
pub proof fn law_sections_are_attributed(metadata: JsonView, path: Seq<char>, c: ChunkView)
    requires
        metadata is Object,
    ensures
        section_metadata(metadata, path, c).field("provenance"@) is Some,
        metadata.field("provenance"@) is Some ==> section_metadata(metadata, path, c).field(
            "provenance"@,
        ) == metadata.field("provenance"@),
        metadata.field("provenance"@) is None ==> section_metadata(metadata, path, c).field(
            "provenance"@,
        ) == Some(document_origin(path)),
{
    reveal_strlit("provenance");
    reveal_strlit("doc_path");
    reveal_strlit("heading_path");
    reveal_strlit("ordinal");
    assert("provenance"@.len() == 10);
    assert("doc_path"@.len() == 8);
    assert("heading_path"@.len() == 12);
    assert("ordinal"@.len() == 7);
    let fields = metadata->Object_0;
    let key = "provenance"@;
    let addressed = with_field(fields, "doc_path"@, JsonView::Str(path));
    json::lemma_with_field(fields, "doc_path"@, JsonView::Str(path), key);
    let attributed = if lookup(addressed, key) is Some {
        addressed
    } else {
        with_field(addressed, key, document_origin(path))
    };
    json::lemma_with_field(addressed, key, document_origin(path), key);
    let trail = JsonView::Array(json::string_views(c.heading_path));
    json::lemma_with_field(attributed, "heading_path"@, trail, key);
    let placed = with_field(attributed, "heading_path"@, trail);
    json::lemma_with_field(placed, "ordinal"@, json::integer_of(c.ordinal as u64), key);
}

// ── The counts ───────────────────────────────────────────────────────────────────────

/// How many of the outcomes are one of two.
pub open spec fn tally(outcomes: Seq<MemoryOutcome>, a: MemoryOutcome, b: MemoryOutcome) -> nat
    decreases outcomes.len(),
{
    if outcomes.len() == 0 {
        0
    } else {
        let before = tally(outcomes.drop_last(), a, b);
        if outcomes.last() == a || outcomes.last() == b {
            before + 1
        } else {
            before
        }
    }
}

pub open spec fn outcomes_of(adds: Seq<MemoryAdd>) -> Seq<MemoryOutcome> {
    adds.map_values(|a: MemoryAdd| a.outcome)
}

proof fn lemma_tally_bound(outcomes: Seq<MemoryOutcome>, a: MemoryOutcome, b: MemoryOutcome)
    ensures
        tally(outcomes, a, b) <= outcomes.len(),
    decreases outcomes.len(),
{
    if outcomes.len() > 0 {
        lemma_tally_bound(outcomes.drop_last(), a, b);
    }
}

/// Counts what importing a document came to. A merge is a change like any other; a conflict is left
/// for a person, and counts as nothing.
pub fn count_outcomes(path: &str, added: &Vec<MemoryAdd>, removed: usize) -> (r:
    DocumentIngestResult)
    ensures
        r.path@ == path@,
        r.chunks == added@.len(),
        r.inserted == tally(
            outcomes_of(added@),
            MemoryOutcome::Inserted,
            MemoryOutcome::Inserted,
        ),
        r.confirmed == tally(
            outcomes_of(added@),
            MemoryOutcome::Confirmed,
            MemoryOutcome::Confirmed,
        ),
        r.superseded == tally(
            outcomes_of(added@),
            MemoryOutcome::Superseded,
            MemoryOutcome::Merged,
        ),
        r.removed == removed,
{
    let ghost all = outcomes_of(added@);
    let mut inserted: usize = 0;
    let mut confirmed: usize = 0;
    let mut superseded: usize = 0;
    let mut i: usize = 0;
    while i < added.len()
        invariant
            i <= added.len(),
            all == outcomes_of(added@),
            inserted <= i,
            confirmed <= i,
            superseded <= i,
            inserted == tally(
                all.take(i as int),
                MemoryOutcome::Inserted,
                MemoryOutcome::Inserted,
            ),
            confirmed == tally(
                all.take(i as int),
                MemoryOutcome::Confirmed,
                MemoryOutcome::Confirmed,
            ),
            superseded == tally(
                all.take(i as int),
                MemoryOutcome::Superseded,
                MemoryOutcome::Merged,
            ),
        decreases added.len() - i,
    {
        proof {
            assert(all.take(i + 1).drop_last() =~= all.take(i as int));
            assert(all.take(i + 1).last() == added@[i as int].outcome);
        }
        match added[i].outcome {
            MemoryOutcome::Inserted => {
                inserted += 1;
            },
            MemoryOutcome::Confirmed => {
                confirmed += 1;
            },
            MemoryOutcome::Superseded => {
                superseded += 1;
            },
            MemoryOutcome::Merged => {
                superseded += 1;
            },
            MemoryOutcome::Conflict => {},
        }
        i += 1;
    }
    proof {
        assert(all.take(all.len() as int) =~= all);
    }
    DocumentIngestResult {
        path: path.to_owned(),
        chunks: added.len(),
        inserted,
        superseded,
        confirmed,
        removed,
    }
}

/// Every section is counted once, or left for a person.
pub proof fn law_every_outcome_is_counted(outcomes: Seq<MemoryOutcome>)
    ensures
        tally(outcomes, MemoryOutcome::Inserted, MemoryOutcome::Inserted) + tally(
            outcomes,
            MemoryOutcome::Confirmed,
            MemoryOutcome::Confirmed,
        ) + tally(outcomes, MemoryOutcome::Superseded, MemoryOutcome::Merged) + tally(
            outcomes,
            MemoryOutcome::Conflict,
            MemoryOutcome::Conflict,
        ) == outcomes.len(),
    decreases outcomes.len(),
{
    if outcomes.len() > 0 {
        law_every_outcome_is_counted(outcomes.drop_last());
    }
}

// ── The sweep ────────────────────────────────────────────────────────────────────────

/// A memory that is retired without a successor.
pub open spec fn expired(m: MemoryView, now: i128) -> MemoryView {
    MemoryView { state: MemoryState::Expired, valid_to: Some(now), updated_at: now, ..m }
}

pub open spec fn expired_row(m: MemoryView, now: i128) -> RowView {
    RowView { memory: expired(m, now), embedding: None }
}

/// Is a section gone from its document?
pub open spec fn gone(m: MemoryView, produced: Seq<Seq<char>>) -> bool {
    match m.subject {
        Some(s) => !listed(produced, s),
        None => false,
    }
}

pub open spec fn swept(previous: Seq<MemoryView>, produced: Seq<Seq<char>>, now: i128) -> Seq<
    RowView,
> {
    previous.filter(|m: MemoryView| gone(m, produced)).map_values(
        |m: MemoryView| expired_row(m, now),
    )
}

fn expire(m: &Memory, now: i128) -> (r: MemoryRow)
    ensures
        r@ == expired_row(m@, now),
{
    let mut old = m.copy();
    old.state = MemoryState::Expired;
    old.valid_to = Some(now);
    old.updated_at = now;
    MemoryRow { memory: old, embedding: None }
}

/// Expires the sections that the new version of a document does not have. `produced` are the
/// subjects of the new version, normalised as the store has them.
pub fn sweep(previous: &Vec<Memory>, produced: &Vec<String>, now: i128) -> (r: Vec<MemoryRow>)
    ensures
        row_views(r@) == swept(memory_views(previous@), views(produced@), now),
{
    let ghost all = memory_views(previous@);
    let ghost keep = |m: MemoryView| gone(m, views(produced@));
    let ghost f = |m: MemoryView| expired_row(m, now);
    let mut out: Vec<MemoryRow> = Vec::new();
    let mut i: usize = 0;
    proof {
        lemma_filter_none(all, keep);
        assert(row_views(out@) =~= all.take(0).filter(keep).map_values(f));
    }
    while i < previous.len()
        invariant
            i <= previous.len(),
            all == memory_views(previous@),
            keep == |m: MemoryView| gone(m, views(produced@)),
            f == |m: MemoryView| expired_row(m, now),
            row_views(out@) == all.take(i as int).filter(keep).map_values(f),
        decreases previous.len() - i,
    {
        let ghost before = out@;
        proof {
            lemma_filter_take(all, keep, i as int);
            assert(all[i as int] == previous@[i as int]@);
        }
        let is_gone = match &previous[i].subject {
            Some(s) => !text::one_of(produced, s.as_str()),
            None => false,
        };
        if is_gone {
            out.push(expire(&previous[i], now));
            proof {
                let kept = all.take(i as int).filter(keep);
                assert(row_views(out@) =~= row_views(before).push(expired_row(all[i as int], now)));
                assert(kept.push(all[i as int]).map_values(f) =~= kept.map_values(f).push(
                    expired_row(all[i as int], now),
                ));
            }
        }
        i += 1;
    }
    proof {
        assert(all.take(all.len() as int) =~= all);
    }
    out
}

/// A sweep only takes what vanished, and keeps what it said: every swept row is a section that was
/// there before and is not produced any more, and nothing of it changes but its state, its end, and
/// when it was touched.
pub proof fn law_sweeps_take_what_is_gone(
    previous: Seq<MemoryView>,
    produced: Seq<Seq<char>>,
    now: i128,
    i: int,
)
    requires
        0 <= i < swept(previous, produced, now).len(),
    ensures
        exists|k: int|
            0 <= k < previous.len() && gone(#[trigger] previous[k], produced) && swept(
                previous,
                produced,
                now,
            )[i].memory == expired(previous[k], now) && crate::engine::plan_laws::kept(
                previous[k],
                swept(previous, produced, now)[i].memory,
            ),
    decreases previous.len(),
{
    let p = |m: MemoryView| gone(m, produced);
    let f = |m: MemoryView| expired_row(m, now);
    previous.lemma_filter_pred(p, i);
    let rest = previous.drop_last();
    lemma_filter_take(previous, p, previous.len() - 1);
    assert(previous.take(previous.len() - 1) =~= rest);
    assert(previous.take(previous.len() as int) =~= previous);
    if i < rest.filter(p).len() {
        assert(swept(rest, produced, now)[i] == swept(previous, produced, now)[i]);
        law_sweeps_take_what_is_gone(rest, produced, now, i);
        let k = choose|k: int|
            0 <= k < rest.len() && gone(#[trigger] rest[k], produced) && swept(
                rest,
                produced,
                now,
            )[i].memory == expired(rest[k], now);
        assert(previous[k] == rest[k]);
    } else {
        assert(previous[previous.len() - 1] == previous.last());
    }
}

/// A sweep misses nothing: every section that is not produced any more is expired. A version that
/// has all the sections of the one before expires none.
pub proof fn law_sweeps_miss_nothing(
    previous: Seq<MemoryView>,
    produced: Seq<Seq<char>>,
    now: i128,
)
    ensures
        forall|k: int|
            0 <= k < previous.len() && gone(#[trigger] previous[k], produced) ==> swept(
                previous,
                produced,
                now,
            ).contains(expired_row(previous[k], now)),
        (forall|k: int| 0 <= k < previous.len() ==> !gone(#[trigger] previous[k], produced))
            ==> swept(previous, produced, now).len() == 0,
{
    let p = |m: MemoryView| gone(m, produced);
    let f = |m: MemoryView| expired_row(m, now);
    let kept = previous.filter(p);
    assert forall|k: int| 0 <= k < previous.len() && gone(#[trigger] previous[k], produced) implies swept(
        previous,
        produced,
        now,
    ).contains(expired_row(previous[k], now)) by {
        previous.lemma_filter_contains(p, k);
        let i = choose|i: int| 0 <= i < kept.len() && kept[i] == previous[k];
        assert(kept.map_values(f)[i] == expired_row(previous[k], now));
    }
    if swept(previous, produced, now).len() > 0 {
        law_sweeps_take_what_is_gone(previous, produced, now, 0);
    }
}

/// The path of the document that a section says it comes from.
pub open spec fn recorded_path(metadata: JsonView) -> Option<Seq<char>> {
    match metadata.field("doc_path"@) {
        Some(JsonView::Str(path)) => Some(path),
        _ => None,
    }
}

/// Is a subject one of the document `path`: the document itself, a section behind `#`, or a part of
/// it by its number behind `~`?
pub open spec fn subject_within(subject: Seq<char>, path: Seq<char>) -> bool {
    ||| subject == path
    ||| begins(subject, path + "#"@)
    ||| exists|n: nat| subject == path + "~"@ + #[trigger] text::decimal_of(n)
}

/// Is a path one of the kept ones, without regard to case and white space?
pub open spec fn path_kept(path: Seq<char>, keep: Seq<Seq<char>>) -> bool {
    exists|k: int| 0 <= k < keep.len() && folded(#[trigger] keep[k]) == folded(path)
}

/// Is a subject one of a kept document?
pub open spec fn subject_kept(subject: Seq<char>, keep: Seq<Seq<char>>) -> bool {
    exists|k: int| 0 <= k < keep.len() && subject_within(subject, #[trigger] keep[k])
}

/// Does a section belong to a document that is not kept? Its document is the one that it records;
/// where it records none, its subject tells.
pub open spec fn dropped(m: MemoryView, keep: Seq<Seq<char>>) -> bool {
    match (m.subject, recorded_path(m.metadata)) {
        (Some(_), Some(path)) => !path_kept(path, keep),
        (Some(s), None) => !subject_kept(s, keep),
        (None, _) => false,
    }
}

pub open spec fn pruned(active: Seq<MemoryView>, keep: Seq<Seq<char>>, now: i128) -> Seq<RowView> {
    active.filter(|m: MemoryView| dropped(m, keep)).map_values(|m: MemoryView| expired_row(m, now))
}

fn keeps_path(path: &str, keep: &Vec<String>) -> (r: bool)
    ensures
        r == path_kept(path@, views(keep@)),
{
    let wanted = text::fold(&text::chars(path));
    let mut i: usize = 0;
    while i < keep.len()
        invariant
            i <= keep.len(),
            wanted@ == folded(path@),
            forall|k: int|
                0 <= k < i ==> folded(#[trigger] views(keep@)[k]) != folded(path@),
        decreases keep.len() - i,
    {
        let one = text::fold(&text::chars(keep[i].as_str()));
        proof {
            assert(views(keep@)[i as int] == keep@[i as int]@);
        }
        if text::same(one.as_str(), wanted.as_str()) {
            return true;
        }
        i += 1;
    }
    false
}

fn is_within(subject: &str, path: &str) -> (r: bool)
    ensures
        r == subject_within(subject@, path@),
{
    let section = text::cat(path, "#");
    if text::same(subject, path) || text::str_starts(subject, section.as_str()) {
        return true;
    }
    let cs = text::chars(subject);
    let part = text::cat(path, "~");
    match text::strip_prefix(&cs, part.as_str()) {
        Some(rest) => {
            let r = text::is_decimal(rest);
            proof {
                assert(cs@ =~= part@ + rest@);
                if exists|n: nat| subject@ == path@ + "~"@ + #[trigger] text::decimal_of(n) {
                    let n = choose|n: nat|
                        subject@ == path@ + "~"@ + #[trigger] text::decimal_of(n);
                    assert(rest@ =~= text::decimal_of(n));
                }
            }
            r
        },
        None => {
            proof {
                if exists|n: nat| subject@ == path@ + "~"@ + #[trigger] text::decimal_of(n) {
                    assert(subject@.take(part@.len() as int) =~= part@);
                }
            }
            false
        },
    }
}

fn keeps_subject(subject: &str, keep: &Vec<String>) -> (r: bool)
    ensures
        r == subject_kept(subject@, views(keep@)),
{
    let mut i: usize = 0;
    while i < keep.len()
        invariant
            i <= keep.len(),
            forall|k: int|
                0 <= k < i ==> !subject_within(subject@, #[trigger] views(keep@)[k]),
        decreases keep.len() - i,
    {
        proof {
            assert(views(keep@)[i as int] == keep@[i as int]@);
        }
        if is_within(subject, keep[i].as_str()) {
            return true;
        }
        i += 1;
    }
    false
}

fn is_dropped(m: &Memory, keep: &Vec<String>) -> (r: bool)
    ensures
        r == dropped(m@, views(keep@)),
{
    match &m.subject {
        Some(s) => match m.metadata.get("doc_path") {
            Some(Json::Str(path)) => !keeps_path(path.as_str(), keep),
            _ => !keeps_subject(s.as_str(), keep),
        },
        None => false,
    }
}

/// Expires the sections of the documents that are not kept. `keep` are the paths of those that are,
/// normalised; `active` are the sections of the project.
pub fn document_prune(active: &Vec<Memory>, keep: &Vec<String>, now: i128) -> (r: Vec<MemoryRow>)
    ensures
        row_views(r@) == pruned(memory_views(active@), views(keep@), now),
{
    let ghost all = memory_views(active@);
    let ghost p = |m: MemoryView| dropped(m, views(keep@));
    let ghost f = |m: MemoryView| expired_row(m, now);
    let mut out: Vec<MemoryRow> = Vec::new();
    let mut i: usize = 0;
    proof {
        lemma_filter_none(all, p);
        assert(row_views(out@) =~= all.take(0).filter(p).map_values(f));
    }
    while i < active.len()
        invariant
            i <= active.len(),
            all == memory_views(active@),
            p == |m: MemoryView| dropped(m, views(keep@)),
            f == |m: MemoryView| expired_row(m, now),
            row_views(out@) == all.take(i as int).filter(p).map_values(f),
        decreases active.len() - i,
    {
        let ghost before = out@;
        proof {
            lemma_filter_take(all, p, i as int);
            assert(all[i as int] == active@[i as int]@);
        }
        if is_dropped(&active[i], keep) {
            out.push(expire(&active[i], now));
            proof {
                let kept = all.take(i as int).filter(p);
                assert(row_views(out@) =~= row_views(before).push(expired_row(all[i as int], now)));
                assert(kept.push(all[i as int]).map_values(f) =~= kept.map_values(f).push(
                    expired_row(all[i as int], now),
                ));
            }
        }
        i += 1;
    }
    proof {
        assert(all.take(all.len() as int) =~= all);
    }
    out
}

/// Pruning leaves nothing to prune: of what stays, nothing is expired the next time.
pub proof fn law_pruning_is_done_once(active: Seq<MemoryView>, keep: Seq<Seq<char>>, now: i128)
    ensures
        pruned(active.filter(|m: MemoryView| !dropped(m, keep)), keep, now).len() == 0,
{
    let p = |m: MemoryView| !dropped(m, keep);
    let q = |m: MemoryView| dropped(m, keep);
    let rest = active.filter(p);
    if rest.filter(q).len() > 0 {
        let m = rest.filter(q)[0];
        rest.lemma_filter_pred(q, 0);
        rest.lemma_filter_contains_rev(q, m);
        let k = choose|k: int| 0 <= k < rest.len() && rest[k] == m;
        active.lemma_filter_pred(p, k);
    }
}

/// A section of an imported document is expired exactly where the path of that document is not
/// among the kept ones, whatever its subject looks like. What is no object can hold no path, and
/// is left out.
pub proof fn law_pruning_goes_by_the_document(
    m: MemoryView,
    metadata: JsonView,
    path: Seq<char>,
    c: ChunkView,
    keep: Seq<Seq<char>>,
)
    requires
        metadata is Object,
        m.metadata == section_metadata(metadata, path, c),
        m.subject is Some,
    ensures
        dropped(m, keep) <==> !path_kept(path, keep),
{
    reveal_strlit("provenance");
    reveal_strlit("doc_path");
    reveal_strlit("heading_path");
    reveal_strlit("ordinal");
    let fields = metadata->Object_0;
    let key = "doc_path"@;
    assert(key.len() == 8 && "provenance"@.len() == 10 && "heading_path"@.len() == 12
        && "ordinal"@.len() == 7);
    let addressed = with_field(fields, key, JsonView::Str(path));
    json::lemma_with_field(fields, key, JsonView::Str(path), key);
    let attributed = if lookup(addressed, "provenance"@) is Some {
        addressed
    } else {
        with_field(addressed, "provenance"@, document_origin(path))
    };
    json::lemma_with_field(addressed, "provenance"@, document_origin(path), key);
    let trail = JsonView::Array(json::string_views(c.heading_path));
    json::lemma_with_field(attributed, "heading_path"@, trail, key);
    let placed = with_field(attributed, "heading_path"@, trail);
    json::lemma_with_field(placed, "ordinal"@, json::integer_of(c.ordinal as u64), key);
}

// ── Promoted events ──────────────────────────────────────────────────────────────────

/// Is an event one that the rules ask for?
pub open spec fn wanted(e: EventView, rules: Seq<Seq<char>>) -> bool {
    exists|i: int|
        0 <= i < rules.len() && covers(#[trigger] rules[i], vendor_of(e.source), e.event_type)
}

/// The memory of a promoted event.
pub open spec fn promoted_input(tenant: Seq<char>, e: EventView, p: PromotionView) -> InputView {
    InputView {
        scope: ScopeView { tenant_id: tenant, user_id: None, agent_id: None, session_id: None },
        subject: Some(p.subject),
        content: p.content,
        importance: None,
        source_event_ids: seq![e.id],
        metadata: JsonView::Object(
            seq![
                ("source"@, JsonView::Str(e.source)),
                ("event_type"@, JsonView::Str(e.event_type)),
                ("promoted"@, JsonView::Bool(true)),
            ],
        ),
        mem_type: Some("episodic"@),
        valid_from: Some(e.timestamp as i128),
        project: None,
    }
}

pub open spec fn promoted_inputs(
    tenant: Seq<char>,
    events: Seq<EventView>,
    rules: Seq<Seq<char>>,
) -> Seq<InputView>
    decreases events.len(),
{
    if events.len() == 0 {
        seq![]
    } else {
        let before = promoted_inputs(tenant, events.drop_last(), rules);
        let e = events.last();
        match promotion(e.source, e.event_type, e.payload) {
            Some(p) if wanted(e, rules) => before.push(promoted_input(tenant, e, p)),
            _ => before,
        }
    }
}

pub open spec fn event_views(v: Seq<Event>) -> Seq<EventView> {
    v.map_values(|e: Event| e@)
}

/// The memories of those events that mark a durable outcome: none where promotion is off.
pub fn promote_events(enabled: bool, tenant: &str, events: &Vec<Event>, rules: &Vec<String>) -> (r:
    Vec<MemoryInput>)
    ensures
        input_views(r@) == if enabled {
            promoted_inputs(tenant@, event_views(events@), views(rules@))
        } else {
            seq![]
        },
{
    let mut out: Vec<MemoryInput> = Vec::new();
    proof {
        assert(input_views(out@) =~= seq![]);
    }
    if !enabled {
        return out;
    }
    let ghost all = event_views(events@);
    let mut i: usize = 0;
    proof {
        assert(all.take(0) =~= seq![]);
    }
    while i < events.len()
        invariant
            i <= events.len(),
            all == event_views(events@),
            input_views(out@) == promoted_inputs(tenant@, all.take(i as int), views(rules@)),
        decreases events.len() - i,
    {
        let ghost before = out@;
        let e = &events[i];
        proof {
            assert(all.take(i + 1).drop_last() =~= all.take(i as int));
            assert(all.take(i + 1).last() == e@);
        }
        let hit = crate::ingest::promote::matches(e, rules.as_slice());
        proof {
            if hit {
                let k = choose|k: int|
                    0 <= k < rules@.len() && covers(
                        (#[trigger] rules@[k])@,
                        vendor_of(e.source@),
                        e.event_type@,
                    );
                assert(views(rules@)[k] == rules@[k]@);
                assert(wanted(e@, views(rules@)));
            } else if wanted(e@, views(rules@)) {
                let k = choose|k: int|
                    0 <= k < views(rules@).len() && covers(
                        #[trigger] views(rules@)[k],
                        vendor_of(e@.source),
                        e@.event_type,
                    );
                assert(views(rules@)[k] == rules@[k]@);
                assert(false);
            }
        }
        if hit {
            if let Some(p) = promote(e) {
                let mut ids: Vec<u128> = Vec::new();
                ids.push(e.id);
                let input = MemoryInput {
                    scope: MemoryScope::tenant(tenant),
                    subject: Some(p.subject),
                    content: p.content,
                    importance: None,
                    source_event_ids: ids,
                    metadata: json::object3(
                        "source",
                        json::string(e.source.as_str()),
                        "event_type",
                        json::string(e.event_type.as_str()),
                        "promoted",
                        Json::Bool(true),
                    ),
                    mem_type: Some("episodic".to_owned()),
                    valid_from: Some(e.timestamp),
                    project: None,
                };
                proof {
                    assert(ids@ =~= seq![e.id]);
                }
                let ghost v = input@;
                out.push(input);
                proof {
                    assert(input_views(out@) =~= input_views(before).push(v));
                }
            }
        }
        i += 1;
    }
    proof {
        assert(all.take(all.len() as int) =~= all);
    }
    out
}

} // verus!
