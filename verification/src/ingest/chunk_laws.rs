//! What holds of every document that is chunked.

use vstd::prelude::*;

use crate::ingest::chunk::{
    chunk_text, chunks_of, chunks_of_sections, first_free, key, keys, number, pack_all,
    paragraphs_of, parts_of, section_parts, sections_of, subject_of, trail, with_parts, ChunkView,
    SectionView,
};
use crate::text::{
    begins, blank, decimal_of, digit, folded, folded_lead, lemma_folded_add, lemma_folded_plain,
    listed, trimmed, white,
};

verus! {

// ── Position and content ─────────────────────────────────────────────────────────────

/// Chunks are numbered by their position, and none is blank.
pub proof fn law_chunks_are_numbered(markdown: Seq<char>, target: nat, max: nat, i: int)
    requires
        0 <= i < chunks_of(markdown, target, max).len(),
    ensures
        chunks_of(markdown, target, max)[i].0.ordinal == i,
        !blank(chunks_of(markdown, target, max)[i].0.text),
{
    lemma_numbered_sections(sections_of(markdown), target, max);
}

spec fn numbered(out: Seq<(ChunkView, nat)>) -> bool {
    forall|i: int|
        0 <= i < out.len() ==> (#[trigger] out[i]).0.ordinal == i && !blank(out[i].0.text)
}

proof fn lemma_numbered_parts(
    out: Seq<(ChunkView, nat)>,
    path: Seq<Seq<char>>,
    parts: Seq<Seq<char>>,
    n: nat,
)
    requires
        numbered(out),
    ensures
        numbered(with_parts(out, path, parts, n)),
    decreases n,
{
    if n > 0 {
        lemma_numbered_parts(out, path, parts, (n - 1) as nat);
    }
}

proof fn lemma_numbered_sections(sections: Seq<SectionView>, target: nat, max: nat)
    ensures
        numbered(chunks_of_sections(sections, target, max)),
    decreases sections.len(),
{
    if sections.len() > 0 {
        lemma_numbered_sections(sections.drop_last(), target, max);
        let parts = section_parts(sections.last(), target, max);
        lemma_numbered_parts(
            chunks_of_sections(sections.drop_last(), target, max),
            sections.last().path,
            parts,
            parts.len(),
        );
    }
}

spec fn trailed(out: Seq<(ChunkView, nat)>) -> bool {
    forall|i: int|
        0 <= i < out.len() ==> begins((#[trigger] out[i]).0.text, trail(out[i].0.heading_path))
}

proof fn lemma_trailed_parts(
    out: Seq<(ChunkView, nat)>,
    path: Seq<Seq<char>>,
    parts: Seq<Seq<char>>,
    n: nat,
)
    requires
        trailed(out),
    ensures
        trailed(with_parts(out, path, parts, n)),
    decreases n,
{
    if n > 0 {
        lemma_trailed_parts(out, path, parts, (n - 1) as nat);
        let t = trail(path);
        assert(chunk_text(path, parts[n - 1]).take(t.len() as int) =~= t);
    }
}

proof fn lemma_trailed_sections(sections: Seq<SectionView>, target: nat, max: nat)
    ensures
        trailed(chunks_of_sections(sections, target, max)),
    decreases sections.len(),
{
    if sections.len() > 0 {
        lemma_trailed_sections(sections.drop_last(), target, max);
        let parts = section_parts(sections.last(), target, max);
        lemma_trailed_parts(
            chunks_of_sections(sections.drop_last(), target, max),
            sections.last().path,
            parts,
            parts.len(),
        );
    }
}

/// Every chunk carries its heading trail in front: it can be found by the words of its ancestors.
pub proof fn law_chunks_carry_their_trail(markdown: Seq<char>, target: nat, max: nat, i: int)
    requires
        0 <= i < chunks_of(markdown, target, max).len(),
    ensures
        begins(
            chunks_of(markdown, target, max)[i].0.text,
            trail(chunks_of(markdown, target, max)[i].0.heading_path),
        ),
{
    lemma_trailed_sections(sections_of(markdown), target, max);
}

/// A heading that only holds other headings gives no chunk.
pub proof fn law_empty_sections_are_skipped(section: SectionView, target: nat, max: nat)
    requires
        blank(section.body),
    ensures
        section_contents(section, target, max).len() == 0,
{
    crate::text::lemma_trimmed_empty(section.body);
    let one = seq![section];
    assert(one.drop_last() =~= seq![]);
    assert(one.last() == section);
    reveal_with_fuel(chunks_of_sections, 2);
    assert(chunks_of_sections(one, target, max) =~= seq![]);
}

// ── Size ─────────────────────────────────────────────────────────────────────────────

/// Is a part as large as was asked for: with its trail within `max` characters, or within `target`,
/// or one paragraph that cannot be divided?
pub open spec fn sized(section: SectionView, part: Seq<char>, target: nat, max: nat) -> bool {
    ||| trail(section.path).len() + part.len() <= max
    ||| part.len() <= target
    ||| exists|k: int|
        0 <= k < paragraphs_of(trimmed(section.body)).len() && part == (
        #[trigger] paragraphs_of(trimmed(section.body))[k]).push('\n')
}

/// Is a part of packed paragraphs one of them alone?
pub open spec fn alone(paragraphs: Seq<Seq<char>>, part: Seq<char>) -> bool {
    exists|k: int| 0 <= k < paragraphs.len() && part == (#[trigger] paragraphs[k]).push('\n')
}

/// A part of packed paragraphs: within the limit, or one of them alone.
spec fn packed(paragraphs: Seq<Seq<char>>, max: nat, part: Seq<char>) -> bool {
    part.len() <= max || alone(paragraphs, part)
}

proof fn lemma_packed(paragraphs: Seq<Seq<char>>, max: nat)
    ensures
        ({
            let p = pack_all(paragraphs, max);
            &&& forall|i: int| 0 <= i < p.done.len() ==> packed(paragraphs, max, #[trigger] p.done[i])
            &&& packed(paragraphs, max, p.current)
        }),
    decreases paragraphs.len(),
{
    if paragraphs.len() > 0 {
        let rest = paragraphs.drop_last();
        let last = paragraphs.last();
        lemma_packed(rest, max);
        let before = pack_all(rest, max);
        let after = pack_all(paragraphs, max);
        assert forall|part: Seq<char>| #[trigger] packed(rest, max, part) implies packed(
            paragraphs,
            max,
            part,
        ) by {
            if part.len() > max {
                let k = choose|k: int|
                    0 <= k < rest.len() && part == (#[trigger] rest[k]).push('\n');
                assert(paragraphs[k] == rest[k]);
            }
        }
        assert(paragraphs[paragraphs.len() - 1] == last);
        assert(packed(paragraphs, max, last.push('\n')));
        if before.current.len() == 0 {
            assert(before.current + last.push('\n') =~= last.push('\n'));
        }
        assert forall|i: int| 0 <= i < after.done.len() implies packed(
            paragraphs,
            max,
            #[trigger] after.done[i],
        ) by {
            if i < before.done.len() {
                assert(packed(rest, max, before.done[i]));
            } else {
                assert(packed(rest, max, before.current));
            }
        }
    }
}

/// A group of paragraphs stays within the limit, whatever it joins: a part that exceeds it is one
/// paragraph alone.
pub proof fn law_groups_keep_the_limit(body: Seq<char>, max: nat, i: int)
    requires
        0 <= i < parts_of(body, max).len(),
    ensures
        parts_of(body, max)[i].len() <= max || alone(paragraphs_of(body), parts_of(body, max)[i]),
{
    let paragraphs = paragraphs_of(body);
    lemma_packed(paragraphs, max);
    let p = pack_all(paragraphs, max);
    if i < p.done.len() {
        assert(packed(paragraphs, max, p.done[i]));
    }
    assert(packed(paragraphs, max, parts_of(body, max)[i]));
}

proof fn lemma_sized_parts(section: SectionView, target: nat, max: nat, i: int)
    requires
        0 <= i < section_parts(section, target, max).len(),
    ensures
        sized(section, section_parts(section, target, max)[i], target, max),
{
    let body = trimmed(section.body);
    if trail(section.path).len() + body.len() > max {
        law_groups_keep_the_limit(body, target, i);
        let part = section_parts(section, target, max)[i];
        if alone(paragraphs_of(body), part) {
            let k = choose|k: int|
                0 <= k < paragraphs_of(body).len() && part == (#[trigger] paragraphs_of(
                    body,
                )[k]).push('\n');
            assert(part == paragraphs_of(trimmed(section.body))[k].push('\n'));
        }
    }
}

/// Is a chunk made of a part of a section that is as large as was asked for?
pub open spec fn sized_chunk(
    sections: Seq<SectionView>,
    c: ChunkView,
    target: nat,
    max: nat,
) -> bool {
    exists|s: int, i: int|
        0 <= s < sections.len() && 0 <= i < section_parts(sections[s], target, max).len()
            && c.text == #[trigger] chunk_text(
            sections[s].path,
            section_parts(sections[s], target, max)[i],
        ) && sized(sections[s], section_parts(sections[s], target, max)[i], target, max)
}

proof fn lemma_sized_chunks(
    sections: Seq<SectionView>,
    out: Seq<(ChunkView, nat)>,
    target: nat,
    max: nat,
    n: nat,
)
    requires
        sections.len() > 0,
        n <= section_parts(sections.last(), target, max).len(),
        forall|i: int|
            0 <= i < out.len() ==> sized_chunk(sections, (#[trigger] out[i]).0, target, max),
    ensures
        ({
            let parts = section_parts(sections.last(), target, max);
            let all = with_parts(out, sections.last().path, parts, n);
            forall|i: int|
                0 <= i < all.len() ==> sized_chunk(sections, (#[trigger] all[i]).0, target, max)
        }),
    decreases n,
{
    if n > 0 {
        lemma_sized_chunks(sections, out, target, max, (n - 1) as nat);
        lemma_sized_parts(sections.last(), target, max, n - 1);
        let parts = section_parts(sections.last(), target, max);
        let s = sections.len() - 1;
        assert(sections[s] == sections.last());
        let text = chunk_text(sections[s].path, section_parts(sections[s], target, max)[n - 1]);
        assert(text == chunk_text(sections.last().path, parts[n - 1]));
        let before = with_parts(out, sections.last().path, parts, (n - 1) as nat);
        let all = with_parts(out, sections.last().path, parts, n);
        assert forall|i: int| 0 <= i < all.len() implies sized_chunk(
            sections,
            (#[trigger] all[i]).0,
            target,
            max,
        ) by {
            if i < before.len() {
                assert(all[i] == before[i]);
            } else {
                assert(all[i].0.text == text);
            }
        }
    }
}

proof fn lemma_sized_sections(sections: Seq<SectionView>, target: nat, max: nat)
    ensures
        forall|i: int|
            0 <= i < chunks_of_sections(sections, target, max).len() ==> sized_chunk(
                sections,
                (#[trigger] chunks_of_sections(sections, target, max)[i]).0,
                target,
                max,
            ),
    decreases sections.len(),
{
    if sections.len() > 0 {
        let rest = sections.drop_last();
        lemma_sized_sections(rest, target, max);
        let out = chunks_of_sections(rest, target, max);
        assert forall|i: int| 0 <= i < out.len() implies sized_chunk(
            sections,
            (#[trigger] out[i]).0,
            target,
            max,
        ) by {
            assert(sized_chunk(rest, out[i].0, target, max));
            let (s, k) = choose|s: int, k: int|
                0 <= s < rest.len() && 0 <= k < section_parts(rest[s], target, max).len()
                    && out[i].0.text == #[trigger] chunk_text(
                    rest[s].path,
                    section_parts(rest[s], target, max)[k],
                ) && sized(rest[s], section_parts(rest[s], target, max)[k], target, max);
            assert(sections[s] == rest[s]);
            assert(out[i].0.text == chunk_text(
                sections[s].path,
                section_parts(sections[s], target, max)[k],
            ));
        }
        lemma_sized_chunks(
            sections,
            out,
            target,
            max,
            section_parts(sections.last(), target, max).len(),
        );
    }
}

/// Chunks are no larger than asked for: with its trail a chunk stays within the ceiling, or it is a
/// part of a larger section that stays within the target, but for a paragraph that exceeds it alone.
pub proof fn law_chunks_are_sized(markdown: Seq<char>, target: nat, max: nat, i: int)
    requires
        0 <= i < chunks_of(markdown, target, max).len(),
    ensures
        sized_chunk(
            sections_of(markdown),
            chunks_of(markdown, target, max)[i].0,
            target,
            max,
        ),
{
    lemma_sized_sections(sections_of(markdown), target, max);
}

// ── Independence ─────────────────────────────────────────────────────────────────────

/// What a chunk is apart from its position in the document: its trail and its text.
pub open spec fn contents(out: Seq<(ChunkView, nat)>) -> Seq<(Seq<Seq<char>>, Seq<char>)> {
    out.map_values(|e: (ChunkView, nat)| (e.0.heading_path, e.0.text))
}

/// What one section contributes, looked at alone.
pub open spec fn section_contents(section: SectionView, target: nat, max: nat) -> Seq<
    (Seq<Seq<char>>, Seq<char>),
> {
    contents(chunks_of_sections(seq![section], target, max))
}

/// Sections are chunked independently of each other: trail and text of the chunks of a section are
/// what that section gives alone, so that an edit of one section leaves those of all
/// others as they are.
pub proof fn law_sections_are_independent(sections: Seq<SectionView>, target: nat, max: nat)
    ensures
        contents(chunks_of_sections(sections, target, max)) == sections.map_values(
            |s: SectionView| section_contents(s, target, max),
        ).flatten_alt(),
    decreases sections.len(),
{
    let f = |s: SectionView| section_contents(s, target, max);
    if sections.len() > 0 {
        let rest = sections.drop_last();
        let last = sections.last();
        law_sections_are_independent(rest, target, max);
        assert(sections.map_values(f).drop_last() =~= rest.map_values(f));
        let parts = section_parts(last, target, max);
        reveal_with_fuel(chunks_of_sections, 2);
        assert(seq![last].drop_last() =~= Seq::<SectionView>::empty());
        assert(chunks_of_sections(seq![last], target, max) == with_parts(
            seq![],
            last.path,
            parts,
            parts.len(),
        ));
        lemma_parts_append(
            chunks_of_sections(rest, target, max),
            last.path,
            parts,
            parts.len(),
        );
    } else {
        assert(contents(chunks_of_sections(sections, target, max)) =~= seq![]);
    }
}

proof fn lemma_parts_append(
    out: Seq<(ChunkView, nat)>,
    path: Seq<Seq<char>>,
    parts: Seq<Seq<char>>,
    n: nat,
)
    ensures
        contents(with_parts(out, path, parts, n)) == contents(out) + contents(
            with_parts(seq![], path, parts, n),
        ),
    decreases n,
{
    if n > 0 {
        lemma_parts_append(out, path, parts, (n - 1) as nat);
        let a = with_parts(out, path, parts, (n - 1) as nat);
        let b = with_parts(seq![], path, parts, (n - 1) as nat);
        let text = chunk_text(path, parts[n - 1]);
        if !blank(text) {
            let x = with_parts(out, path, parts, n);
            let y = with_parts(seq![], path, parts, n);
            assert(contents(x) =~= contents(a).push((path, text)));
            assert(contents(y) =~= contents(b).push((path, text)));
        }
    }
    assert(contents(with_parts(out, path, parts, n)) =~= contents(out) + contents(
        with_parts(seq![], path, parts, n),
    ));
}

// ── Addresses ────────────────────────────────────────────────────────────────────────

/// The address of a chunk with a usable trail depends on the document, the trail and the part
/// alone: neither the text nor the position of the section moves it.
pub proof fn law_address_is_stable(a: ChunkView, b: ChunkView, doc: Seq<char>, part: Option<nat>)
    requires
        a.heading_path == b.heading_path,
        !blank(trail(a.heading_path)),
    ensures
        subject_of(a, doc, part) == subject_of(b, doc, part),
{
}

/// Every chunk has an address.
pub proof fn law_every_chunk_has_a_subject(c: ChunkView, doc: Seq<char>, part: Option<nat>)
    requires
        !blank(doc),
    ensures
        !blank(subject_of(c, doc, part)),
{
    let s = subject_of(c, doc, part);
    let i = choose|i: int| 0 <= i < doc.len() && !white(doc[i]);
    assert(s.len() >= doc.len() && s[i] == doc[i]);
}

/// Does a way to normalise subjects make no more alike than case and white space do?
pub open spec fn fair(normal: spec_fn(Seq<char>) -> Seq<char>) -> bool {
    forall|x: Seq<char>, y: Seq<char>|
        #[trigger] normal(x) == #[trigger] normal(y) ==> folded(x) == folded(y)
}

/// No two chunks of a document share a subject, nor do they without regard to case and white
/// space, or however subjects are normalised as long as no more is made alike.
pub proof fn law_subjects_are_unique(
    markdown: Seq<char>,
    target: nat,
    max: nat,
    doc: Seq<char>,
    normal: spec_fn(Seq<char>) -> Seq<char>,
    i: int,
    j: int,
)
    requires
        0 <= i < chunks_of(markdown, target, max).len(),
        0 <= j < chunks_of(markdown, target, max).len(),
        i != j,
    ensures
        ({
            let a = chunks_of(markdown, target, max)[i];
            let b = chunks_of(markdown, target, max)[j];
            let s = subject_of(a.0, doc, Some(a.1));
            let t = subject_of(b.0, doc, Some(b.1));
            &&& s != t
            &&& folded(s) != folded(t)
            &&& fair(normal) ==> normal(s) != normal(t)
        }),
{
    let all = chunks_of(markdown, target, max);
    let a = all[i];
    let b = all[j];
    lemma_distinct_sections(sections_of(markdown), target, max);
    assert(keys(all)[i] != keys(all)[j]);
    assert(key(a.0, a.1) != key(b.0, b.1));
    lemma_key_in_document(a, b, doc);
}

/// Addresses that differ within a document differ as subjects of every document.
proof fn lemma_key_in_document(a: (ChunkView, nat), b: (ChunkView, nat), doc: Seq<char>)
    requires
        key(a.0, a.1) != key(b.0, b.1),
    ensures
        folded(subject_of(a.0, doc, Some(a.1))) != folded(subject_of(b.0, doc, Some(b.1))),
{
    lemma_label(a, doc);
    lemma_label(b, doc);
    let x = label(a);
    let y = label(b);
    lemma_label_start(a);
    lemma_label_start(b);
    if x.len() > 0 && y.len() > 0 {
        lemma_folded_add(doc, x);
        lemma_folded_add(doc, y);
        if folded(doc + x) == folded(doc + y) {
            let n = folded_lead(doc).len() as int;
            assert(folded(x) =~= folded(doc + x).skip(n));
            assert(folded(y) =~= folded(doc + y).skip(n));
        }
    } else if x.len() > 0 {
        lemma_folded_add(doc, x);
        lemma_folded_longer(x);
        assert(doc + y =~= doc);
    } else if y.len() > 0 {
        lemma_folded_add(doc, y);
        lemma_folded_longer(y);
        assert(doc + x =~= doc);
    } else {
        assert(x =~= y);
    }
}

/// What begins with a visible ASCII character does not fold to nothing.
proof fn lemma_folded_longer(s: Seq<char>)
    requires
        s.len() > 0,
        !white(s[0]),
        s[0] <= '\u{7f}',
    ensures
        folded(s).len() > 0,
    decreases s.len(),
{
    if s.len() > 1 {
        assert(s.drop_last()[0] == s[0]);
        lemma_folded_longer(s.drop_last());
    } else {
        assert(s.last() == s[0]);
    }
}

proof fn lemma_label_start(e: (ChunkView, nat))
    ensures
        label(e).len() > 0 ==> label(e)[0] == '#' || label(e)[0] == '~',
{
    lemma_label(e, seq![]);
    reveal_strlit("~");
    reveal_strlit("#");
    reveal_strlit("#§");
}

spec fn distinct(taken: Seq<Seq<char>>) -> bool {
    forall|i: int, j: int|
        0 <= i < taken.len() && 0 <= j < taken.len() && i != j ==> #[trigger] taken[i]
            != #[trigger] taken[j]
}

proof fn lemma_distinct_parts(
    out: Seq<(ChunkView, nat)>,
    path: Seq<Seq<char>>,
    parts: Seq<Seq<char>>,
    n: nat,
)
    requires
        distinct(keys(out)),
    ensures
        distinct(keys(with_parts(out, path, parts, n))),
    decreases n,
{
    if n > 0 {
        lemma_distinct_parts(out, path, parts, (n - 1) as nat);
        let before = with_parts(out, path, parts, (n - 1) as nat);
        let after = with_parts(out, path, parts, n);
        let text = chunk_text(path, parts[n - 1]);
        if !blank(text) {
            let c = ChunkView { heading_path: path, text, ordinal: before.len() };
            lemma_number_is_free(keys(before), c, (n - 1) as nat);
            assert(keys(after) =~= keys(before).push(
                key(c, number(keys(before), c, (n - 1) as nat)),
            ));
        }
    }
}

proof fn lemma_distinct_sections(sections: Seq<SectionView>, target: nat, max: nat)
    ensures
        distinct(keys(chunks_of_sections(sections, target, max))),
    decreases sections.len(),
{
    if sections.len() > 0 {
        lemma_distinct_sections(sections.drop_last(), target, max);
        let parts = section_parts(sections.last(), target, max);
        lemma_distinct_parts(
            chunks_of_sections(sections.drop_last(), target, max),
            sections.last().path,
            parts,
            parts.len(),
        );
    }
}

/// The search for a number passes over numbers whose addresses are taken, and ends at a free one
/// unless it runs out of tries.
proof fn lemma_first_free(taken: Seq<Seq<char>>, c: ChunkView, n: nat, tries: nat)
    ensures
        ({
            let r = first_free(taken, c, n, tries);
            &&& n <= r <= n + tries
            &&& forall|m: nat| n <= m < r ==> listed(taken, #[trigger] key(c, m))
            &&& r < n + tries ==> !listed(taken, key(c, r))
        }),
    decreases tries,
{
    if tries > 0 && listed(taken, key(c, n)) {
        lemma_first_free(taken, c, n + 1, (tries - 1) as nat);
    }
}

/// A part is given an address that no earlier chunk has: there are more numbers to try than
/// addresses that are taken.
proof fn lemma_number_is_free(taken: Seq<Seq<char>>, c: ChunkView, wanted: nat)
    ensures
        !listed(taken, key(c, number(taken, c, wanted))),
{
    if listed(taken, key(c, wanted)) {
        let n = taken.len();
        let r = first_free(taken, c, 0, n);
        lemma_first_free(taken, c, 0, n);
        if listed(taken, key(c, r)) {
            assert(r == n);
            let tried = Seq::new((n + 1) as nat, |m: int| key(c, m as nat));
            assert forall|i: int, j: int|
                0 <= i < tried.len() && 0 <= j < tried.len() && i != j implies tried[i]
                != tried[j] by {
                if tried[i] == tried[j] {
                    lemma_numbers_differ(c, i as nat, j as nat);
                }
            }
            tried.unique_seq_to_set();
            taken.lemma_cardinality_of_set();
            assert forall|x: Seq<char>| #[trigger] tried.to_set().contains(
                x,
            ) implies taken.to_set().contains(x) by {
                let i = choose|i: int| 0 <= i < tried.len() && tried[i] == x;
                assert(listed(taken, key(c, i as nat)));
            }
            vstd::set_lib::lemma_len_subset(tried.to_set(), taken.to_set());
        }
    }
}

/// Parts of one section with different numbers have different addresses.
proof fn lemma_numbers_differ(c: ChunkView, m: nat, n: nat)
    requires
        key(c, m) == key(c, n),
    ensures
        m == n,
{
    lemma_label((c, m), seq![]);
    lemma_label((c, n), seq![]);
    let s = stem(c);
    assert(s + seq![] =~= s);
    lemma_suffix_plain(m);
    lemma_suffix_plain(n);
    if m > 0 && n > 0 {
        lemma_folded_add(s, suffix(m));
        lemma_folded_add(s, suffix(n));
        let k = folded_lead(s).len() as int;
        assert(suffix(m) =~= key(c, m).skip(k));
        assert(suffix(n) =~= key(c, n).skip(k));
        lemma_suffix_injective(m, n);
    } else if m > 0 {
        lemma_folded_add(s, suffix(m));
    } else if n > 0 {
        lemma_folded_add(s, suffix(n));
    }
}

proof fn lemma_suffix_plain(n: nat)
    ensures
        folded(suffix(n)) == suffix(n),
        n > 0 ==> suffix(n).len() > 0 && !white(suffix(n)[0]),
{
    reveal_strlit("~");
    lemma_digits(n);
    let s = suffix(n);
    assert forall|i: int| 0 <= i < s.len() implies #[trigger] s[i] <= '\u{7f}' && !white(s[i])
        && !('A' <= s[i] <= 'Z') by {
        if i > 0 {
            assert(s[i] == decimal_of(n)[i - 1]);
        }
    }
    lemma_folded_plain(s);
}

/// The address of a chunk within its document.
spec fn label(e: (ChunkView, nat)) -> Seq<char> {
    subject_of(e.0, seq![], Some(e.1))
}

spec fn suffix(part: nat) -> Seq<char> {
    if part > 0 {
        "~"@ + decimal_of(part)
    } else {
        seq![]
    }
}

spec fn stem(c: ChunkView) -> Seq<char> {
    let t = trail(c.heading_path);
    if blank(t) {
        if c.ordinal == 0 {
            seq![]
        } else {
            "#§"@ + decimal_of(c.ordinal)
        }
    } else {
        "#"@ + t
    }
}

proof fn lemma_label(e: (ChunkView, nat), doc: Seq<char>)
    ensures
        label(e) == stem(e.0) + suffix(e.1),
        subject_of(e.0, doc, Some(e.1)) == doc + label(e),
{
    let s = subject_of(e.0, doc, Some(e.1));
    assert(label(e) =~= stem(e.0) + suffix(e.1));
    assert(s =~= doc + label(e));
}

proof fn lemma_digits(n: nat)
    ensures
        decimal_of(n).len() > 0,
        forall|k: int| 0 <= k < decimal_of(n).len() ==> '0' <= #[trigger] decimal_of(n)[k] <= '9',
    decreases n,
{
    if n >= 10 {
        lemma_digits(n / 10);
    }
}

/// Different numbers have different decimal texts.
pub proof fn lemma_decimal_injective(m: nat, n: nat)
    requires
        decimal_of(m) == decimal_of(n),
    ensures
        m == n,
    decreases m,
{
    lemma_digits(m / 10);
    lemma_digits(n / 10);
    let x = decimal_of(m);
    let y = decimal_of(n);
    let c = (m % 10) as int;
    let d = (n % 10) as int;
    assert(x.last() == digit(c)) by {
        if m >= 10 {
            assert(x == decimal_of(m / 10).push(digit(c)));
        }
    }
    assert(y.last() == digit(d)) by {
        if n >= 10 {
            assert(y == decimal_of(n / 10).push(digit(d)));
        }
    }
    assert(c == d);
    if m >= 10 && n >= 10 {
        assert(x == decimal_of(m / 10).push(digit(c)));
        assert(y == decimal_of(n / 10).push(digit(d)));
        assert(x.drop_last() =~= decimal_of(m / 10));
        assert(y.drop_last() =~= decimal_of(n / 10));
        lemma_decimal_injective(m / 10, n / 10);
    } else if m >= 10 {
        assert(x == decimal_of(m / 10).push(digit(c)));
    } else if n >= 10 {
        assert(y == decimal_of(n / 10).push(digit(d)));
    }
}

proof fn lemma_suffix_injective(m: nat, n: nat)
    requires
        suffix(m) == suffix(n),
    ensures
        m == n,
{
    reveal_strlit("~");
    lemma_digits(m);
    lemma_digits(n);
    if m > 0 && n > 0 {
        assert(decimal_of(m) =~= suffix(m).skip(1));
        assert(decimal_of(n) =~= suffix(n).skip(1));
        lemma_decimal_injective(m, n);
    }
}

} // verus!
