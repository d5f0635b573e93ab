//! What an edit of one line changes.

use vstd::prelude::*;

use crate::ingest::chunk::{
    chunk_text, chunks_of, chunks_of_sections, first_free, heading, key, keys, kept_with, mark,
    number, scan_line, scan_lines, section_parts, sections_of, subject_of, trail, with_parts,
    ChunkView, Scan, SectionView,
};
use crate::ingest::fidelity::{
    ink, law_no_text_is_lost, lemma_ink_add, lemma_ink_trimmed, prose,
};
use crate::text::{blank, lemma_trimmed_empty, lines_of, trimmed, white};

verus! {

/// A line of text: not blank, no heading and no fence.
pub open spec fn body_line(line: Seq<char>) -> bool {
    !blank(line) && heading(line) is None && mark(line) is None
}

/// A section that needs no splitting.
pub open spec fn unsplit(section: SectionView, max: nat) -> bool {
    trimmed(section.body).len() == 0 || trail(section.path).len() + trimmed(section.body).len()
        <= max
}

pub open spec fn all_unsplit(sections: Seq<SectionView>, max: nat) -> bool {
    forall|i: int| 0 <= i < sections.len() ==> unsplit(#[trigger] sections[i], max)
}

// ── Sections ─────────────────────────────────────────────────────────────────────────

/// Sections that differ in the body of number `e` alone, if there is one. It is blank in neither.
spec fn differ_at(a: Seq<SectionView>, b: Seq<SectionView>, e: int) -> bool {
    &&& a.len() == b.len()
    &&& forall|i: int| 0 <= i < a.len() ==> (#[trigger] a[i]).path == b[i].path
    &&& forall|i: int| 0 <= i < a.len() && i != e ==> #[trigger] a[i] == b[i]
    &&& 0 <= e < a.len() ==> !blank(a[e].body) && !blank(b[e].body)
}

/// Scans that differ in the body of one section, closed or not.
spec fn scans_differ(s: Scan, t: Scan, e: int) -> bool {
    &&& s.stack == t.stack
    &&& s.open == t.open
    &&& 0 <= e <= s.done.len()
    &&& differ_at(s.done.push(s.current), t.done.push(t.current), e)
}

proof fn lemma_longer_not_blank(a: Seq<char>, b: Seq<char>)
    requires
        !blank(a) || !blank(b),
    ensures
        !blank(a + b),
{
    if !blank(a) {
        let i = choose|i: int| 0 <= i < a.len() && !white(#[trigger] a[i]);
        assert((a + b)[i] == a[i]);
    } else {
        let i = choose|i: int| 0 <= i < b.len() && !white(#[trigger] b[i]);
        assert((a + b)[a.len() + i] == b[i]);
    }
}

proof fn lemma_line_not_blank(line: Seq<char>)
    requires
        !blank(line),
    ensures
        !blank(line.push('\n')),
{
    let i = choose|i: int| 0 <= i < line.len() && !white(#[trigger] line[i]);
    assert(line.push('\n')[i] == line[i]);
}

/// The line that was edited goes into the same section.
proof fn lemma_edited_line(s: Scan, x: Seq<char>, y: Seq<char>)
    requires
        body_line(x),
        body_line(y),
    ensures
        scans_differ(scan_line(s, x), scan_line(s, y), s.done.len() as int),
{
    let a = scan_line(s, x);
    let b = scan_line(s, y);
    lemma_line_not_blank(x);
    lemma_line_not_blank(y);
    lemma_longer_not_blank(s.current.body, x.push('\n'));
    lemma_longer_not_blank(s.current.body, y.push('\n'));
    let e = s.done.len() as int;
    let p = a.done.push(a.current);
    let q = b.done.push(b.current);
    assert(p[e] == a.current && q[e] == b.current);
    assert forall|i: int| 0 <= i < p.len() && i != e implies #[trigger] p[i] == q[i] by {
        assert(p[i] == s.done[i] && q[i] == s.done[i]);
    }
}

/// A line that is the same keeps the scans apart in that section alone.
proof fn lemma_same_line(s: Scan, t: Scan, line: Seq<char>, e: int)
    requires
        scans_differ(s, t, e),
    ensures
        scans_differ(scan_line(s, line), scan_line(t, line), e),
{
    let a = scan_line(s, line);
    let b = scan_line(t, line);
    let p = s.done.push(s.current);
    let q = t.done.push(t.current);
    let n = s.done.len() as int;
    assert(p[n] == s.current && q[n] == t.current);
    assert(s.current.path == t.current.path);
    assert forall|i: int| 0 <= i < n implies (#[trigger] s.done[i]).path == t.done[i].path && (i
        != e ==> s.done[i] == t.done[i]) by {
        assert(p[i] == s.done[i] && q[i] == t.done[i]);
    }
    if e < n {
        assert(p[e] == s.done[e] && q[e] == t.done[e]);
    }
    if e != n {
        assert(s.current == t.current);
    }
    if s.open is None && heading(line) is Some {
        assert(s.current.kept() == t.current.kept());
        assert(a.current == b.current);
        if s.current.kept() {
            assert(a.done == p && b.done == q);
        } else {
            assert(e < n);
            assert(a.done == s.done && b.done == t.done);
        }
    } else {
        if e == n {
            lemma_longer_not_blank(s.current.body, line.push('\n'));
            lemma_longer_not_blank(t.current.body, line.push('\n'));
        }
        assert(a.done == s.done && b.done == t.done);
    }
    let x = a.done.push(a.current);
    let y = b.done.push(b.current);
    let m = a.done.len() as int;
    assert(x[m] == a.current && y[m] == b.current);
    assert(a.current.path == b.current.path);
    assert forall|i: int| 0 <= i < x.len() implies (#[trigger] x[i]).path == y[i].path by {
        if i < m {
            assert(x[i] == a.done[i] && y[i] == b.done[i]);
        }
    }
    assert forall|i: int| 0 <= i < x.len() && i != e implies #[trigger] x[i] == y[i] by {
        if i < m {
            assert(x[i] == a.done[i] && y[i] == b.done[i]);
        }
    }
    if e < m {
        assert(x[e] == a.done[e] && y[e] == b.done[e]);
    }
}

proof fn lemma_scan_edit(a: Seq<Seq<char>>, b: Seq<Seq<char>>, k: int) -> (e: int)
    requires
        0 <= k < a.len(),
        b == a.update(k, b[k]),
        b.len() == a.len(),
        body_line(a[k]),
        body_line(b[k]),
    ensures
        scans_differ(scan_lines(a), scan_lines(b), e),
    decreases a.len(),
{
    let x = a.drop_last();
    let y = b.drop_last();
    if k == a.len() - 1 {
        assert(x =~= y);
        lemma_edited_line(scan_lines(x), a.last(), b.last());
        scan_lines(x).done.len() as int
    } else {
        assert(y =~= x.update(k, y[k]));
        let e = lemma_scan_edit(x, y, k);
        assert(a.last() == b.last());
        lemma_same_line(scan_lines(x), scan_lines(y), a.last(), e);
        e
    }
}

proof fn lemma_sections_edit(s: Scan, t: Scan, e: int)
    requires
        scans_differ(s, t, e),
    ensures
        differ_at(kept_with(s.done, s.current), kept_with(t.done, t.current), e),
        0 <= e < kept_with(s.done, s.current).len(),
{
    let p = s.done.push(s.current);
    let q = t.done.push(t.current);
    let n = s.done.len() as int;
    assert(p[n] == s.current && q[n] == t.current);
    assert(s.current.path == t.current.path);
    if e != n {
        assert(s.current == t.current);
    }
    if !s.current.kept() {
        assert(e < n);
        assert forall|i: int| 0 <= i < n implies (#[trigger] s.done[i]).path == t.done[i].path && (i
            != e ==> s.done[i] == t.done[i]) by {
            assert(p[i] == s.done[i] && q[i] == t.done[i]);
        }
        assert(p[e] == s.done[e] && q[e] == t.done[e]);
    }
}

// ── Chunks ───────────────────────────────────────────────────────────────────────────

/// Chunks at the same addresses: trail, position and number are the same.
pub open spec fn same_addresses(a: Seq<(ChunkView, nat)>, b: Seq<(ChunkView, nat)>) -> bool {
    &&& a.len() == b.len()
    &&& forall|i: int|
        0 <= i < a.len() ==> (#[trigger] a[i]).0.heading_path == b[i].0.heading_path
            && a[i].0.ordinal == b[i].0.ordinal && a[i].1 == b[i].1
}

/// The same chunks but for number `e`.
pub open spec fn same_but(a: Seq<(ChunkView, nat)>, b: Seq<(ChunkView, nat)>, e: int) -> bool {
    forall|i: int| 0 <= i < a.len() && i != e ==> #[trigger] a[i] == b[i]
}

proof fn lemma_same_first_free(
    taken: Seq<Seq<char>>,
    c: ChunkView,
    d: ChunkView,
    n: nat,
    tries: nat,
)
    requires
        c.heading_path == d.heading_path,
        c.ordinal == d.ordinal,
    ensures
        first_free(taken, c, n, tries) == first_free(taken, d, n, tries),
    decreases tries,
{
    assert(key(c, n) == key(d, n));
    if tries > 0 {
        lemma_same_first_free(taken, c, d, n + 1, (tries - 1) as nat);
    }
}

proof fn lemma_same_number(taken: Seq<Seq<char>>, c: ChunkView, d: ChunkView, wanted: nat)
    requires
        c.heading_path == d.heading_path,
        c.ordinal == d.ordinal,
    ensures
        number(taken, c, wanted) == number(taken, d, wanted),
{
    assert(key(c, wanted) == key(d, wanted));
    lemma_same_first_free(taken, c, d, 0, taken.len());
}

proof fn lemma_same_keys(a: Seq<(ChunkView, nat)>, b: Seq<(ChunkView, nat)>)
    requires
        same_addresses(a, b),
    ensures
        keys(a) == keys(b),
{
    assert forall|i: int| 0 <= i < a.len() implies keys(a)[i] == keys(b)[i] by {
        assert(a[i].0.heading_path == b[i].0.heading_path);
        assert(key(a[i].0, a[i].1) == key(b[i].0, b[i].1));
    }
    assert(keys(a) =~= keys(b));
}

proof fn lemma_part_not_blank(path: Seq<Seq<char>>, part: Seq<char>)
    requires
        !blank(trimmed(part)),
    ensures
        !blank(chunk_text(path, part)),
{
    let t = trail(path);
    if t.len() > 0 {
        lemma_longer_not_blank(t + "\n\n"@, trimmed(part));
    }
}

/// The body of a section that is not blank gives one part that is not blank.
proof fn lemma_one_part(section: SectionView, target: nat, max: nat)
    requires
        unsplit(section, max),
        !blank(section.body),
    ensures
        section_parts(section, target, max) == seq![trimmed(section.body)],
        !blank(trimmed(trimmed(section.body))),
        !blank(chunk_text(section.path, trimmed(section.body))),
{
    let body = trimmed(section.body);
    lemma_ink_trimmed(section.body);
    lemma_ink_trimmed(body);
    lemma_ink_of_text(section.body);
    lemma_ink_of_text(body);
    lemma_ink_of_text(trimmed(body));
    lemma_part_not_blank(section.path, body);
}

/// A text without ink is blank, and the other way round.
proof fn lemma_ink_of_text(s: Seq<char>)
    ensures
        ink(s).len() == 0 <==> blank(s),
    decreases s.len(),
{
    if s.len() > 0 {
        let rest = s.drop_last();
        lemma_ink_of_text(rest);
        if blank(s) {
            assert(white(s[s.len() - 1]));
            assert forall|i: int| 0 <= i < rest.len() implies white(#[trigger] rest[i]) by {
                assert(rest[i] == s[i]);
            }
        } else {
            let i = choose|i: int| 0 <= i < s.len() && !white(#[trigger] s[i]);
            if i < rest.len() {
                assert(rest[i] == s[i]);
            } else {
                assert(s.last() == s[i]);
            }
        }
    }
}

proof fn lemma_with_one_part(out: Seq<(ChunkView, nat)>, path: Seq<Seq<char>>, part: Seq<char>)
    ensures
        with_parts(out, path, seq![part], 1) == if blank(chunk_text(path, part)) {
            out
        } else {
            let c = ChunkView {
                heading_path: path,
                text: chunk_text(path, part),
                ordinal: out.len(),
            };
            out.push((c, number(keys(out), c, 0)))
        },
{
    reveal_with_fuel(with_parts, 2);
    assert(seq![part][0] == part);
}

proof fn lemma_chunks_edit(
    a: Seq<SectionView>,
    b: Seq<SectionView>,
    e: int,
    target: nat,
    max: nat,
) -> (f: int)
    requires
        differ_at(a, b, e),
        0 <= e < a.len(),
        all_unsplit(a, max),
        all_unsplit(b, max),
    ensures
        0 <= f < chunks_of_sections(a, target, max).len(),
        same_addresses(
            chunks_of_sections(a, target, max),
            chunks_of_sections(b, target, max),
        ),
        same_but(
            chunks_of_sections(a, target, max),
            chunks_of_sections(b, target, max),
            f,
        ),
    decreases a.len(),
{
    let x = a.drop_last();
    let y = b.drop_last();
    let n = a.len() - 1;
    let c = chunks_of_sections(a, target, max);
    let d = chunks_of_sections(b, target, max);
    assert(a[n] == a.last() && b[n] == b.last());
    assert(a[n].path == b[n].path);
    if e == n {
        assert(x =~= y) by {
            assert forall|i: int| 0 <= i < x.len() implies x[i] == y[i] by {
                assert(a[i] == b[i]);
            }
        }
        let out = chunks_of_sections(x, target, max);
        assert(unsplit(a[n], max) && unsplit(b[n], max));
        lemma_one_part(a[n], target, max);
        lemma_one_part(b[n], target, max);
        lemma_with_one_part(out, a[n].path, trimmed(a[n].body));
        lemma_with_one_part(out, b[n].path, trimmed(b[n].body));
        let f = out.len() as int;
        lemma_same_number(keys(out), c[f].0, d[f].0, 0);
        f
    } else {
        assert forall|i: int| 0 <= i < x.len() implies (#[trigger] x[i]).path == y[i].path && (i
            != e ==> x[i] == y[i]) && unsplit(x[i], max) && unsplit(y[i], max) by {
            assert(x[i] == a[i] && y[i] == b[i]);
            assert(unsplit(a[i], max) && unsplit(b[i], max));
        }
        assert(x[e] == a[e] && y[e] == b[e]);
        assert forall|i: int| 0 <= i < y.len() implies unsplit(#[trigger] y[i], max) by {
            assert(unsplit(x[i], max) && unsplit(y[i], max));
        }
        let f = lemma_chunks_edit(x, y, e, target, max);
        let p = chunks_of_sections(x, target, max);
        let q = chunks_of_sections(y, target, max);
        assert(a[n] == b[n]);
        assert(unsplit(a[n], max));
        lemma_same_keys(p, q);
        if blank(a[n].body) {
            lemma_trimmed_empty(a[n].body);
            assert(c == p && d == q);
        } else {
            lemma_one_part(a[n], target, max);
            lemma_with_one_part(p, a[n].path, trimmed(a[n].body));
            lemma_with_one_part(q, a[n].path, trimmed(a[n].body));
            let new = c[p.len() as int];
            assert(c =~= p.push(new));
            assert(d =~= q.push(new));
            assert forall|i: int| 0 <= i < c.len() implies (#[trigger] c[i]).0.heading_path
                == d[i].0.heading_path && c[i].0.ordinal == d[i].0.ordinal && c[i].1 == d[i].1 && (i
                != f ==> c[i] == d[i]) by {
                if i < p.len() {
                    assert(c[i] == p[i] && d[i] == q[i]);
                    assert(p[i].0.heading_path == q[i].0.heading_path);
                }
            }
        }
        f
    }
}

// ── Ink ──────────────────────────────────────────────────────────────────────────────

/// What is written apart from headings, before and after the line that was edited.
proof fn lemma_prose_edit(a: Seq<Seq<char>>, b: Seq<Seq<char>>, k: int) -> (r: (
    Seq<char>,
    Seq<char>,
))
    requires
        0 <= k < a.len(),
        b == a.update(k, b[k]),
        b.len() == a.len(),
        body_line(a[k]),
        body_line(b[k]),
    ensures
        ink(prose(a)) == r.0 + ink(a[k]) + r.1,
        ink(prose(b)) == r.0 + ink(b[k]) + r.1,
    decreases a.len(),
{
    let x = a.drop_last();
    let y = b.drop_last();
    if k == a.len() - 1 {
        assert(x =~= y);
        lemma_ink_add(prose(x), a[k]);
        lemma_ink_add(prose(x), b[k]);
        assert(a.last() == a[k] && b.last() == b[k]);
        let none = Seq::<char>::empty();
        assert(ink(prose(x)) + ink(a[k]) + none =~= ink(prose(x)) + ink(a[k]));
        assert(ink(prose(x)) + ink(b[k]) + none =~= ink(prose(x)) + ink(b[k]));
        (ink(prose(x)), none)
    } else {
        assert(y =~= x.update(k, y[k]));
        let line = a.last();
        assert(b.last() == line);
        let r = lemma_prose_edit(x, y, k);
        let e = lemma_scan_edit(x, y, k);
        assert(scan_lines(x).open == scan_lines(y).open);
        if scan_lines(x).open is None && heading(line) is Some {
            r
        } else {
            lemma_ink_add(prose(x), line);
            lemma_ink_add(prose(y), line);
            assert(r.0 + ink(a[k]) + r.1 + ink(line) =~= r.0 + ink(a[k]) + (r.1 + ink(line)));
            assert(r.0 + ink(b[k]) + r.1 + ink(line) =~= r.0 + ink(b[k]) + (r.1 + ink(line)));
            (r.0, r.1 + ink(line))
        }
    }
}

/// Editing one line of a document changes one chunk: where no section needs splitting, before or
/// after, a line of text that gives way to another leaves every chunk at its address, and the text
/// of all of them but one. Where the new line reads differently, white space aside, that one is
/// different.
pub proof fn law_an_edit_changes_one_chunk(
    before: Seq<char>,
    after: Seq<char>,
    k: int,
    target: nat,
    max: nat,
    doc: Seq<char>,
)
    requires
        lines_of(before).len() == lines_of(after).len(),
        0 <= k < lines_of(before).len(),
        lines_of(after) == lines_of(before).update(k, lines_of(after)[k]),
        body_line(lines_of(before)[k]),
        body_line(lines_of(after)[k]),
        all_unsplit(sections_of(before), max),
        all_unsplit(sections_of(after), max),
    ensures
        ({
            let a = chunks_of(before, target, max);
            let b = chunks_of(after, target, max);
            &&& same_addresses(a, b)
            &&& forall|i: int|
                0 <= i < a.len() ==> subject_of((#[trigger] a[i]).0, doc, Some(a[i].1))
                    == subject_of(b[i].0, doc, Some(b[i].1))
            &&& exists|e: int|
                0 <= e < a.len() && #[trigger] same_but(a, b, e) && (ink(lines_of(before)[k])
                    != ink(lines_of(after)[k]) ==> a[e].0.text != b[e].0.text)
        }),
{
    let x = lines_of(before);
    let y = lines_of(after);
    let a = chunks_of(before, target, max);
    let b = chunks_of(after, target, max);
    let e = lemma_scan_edit(x, y, k);
    lemma_sections_edit(scan_lines(x), scan_lines(y), e);
    let f = lemma_chunks_edit(sections_of(before), sections_of(after), e, target, max);
    assert forall|i: int| 0 <= i < a.len() implies subject_of(
        (#[trigger] a[i]).0,
        doc,
        Some(a[i].1),
    ) == subject_of(b[i].0, doc, Some(b[i].1)) by {
        assert(a[i].0.heading_path == b[i].0.heading_path);
    }
    if a[f].0.text == b[f].0.text {
        assert(a[f].0.heading_path == b[f].0.heading_path);
        assert forall|i: int| 0 <= i < a.len() implies a[i] == b[i] by {
            assert(a[f] == b[f]);
        }
        assert(a =~= b);
        law_no_text_is_lost(before, target, max);
        law_no_text_is_lost(after, target, max);
        let r = lemma_prose_edit(x, y, k);
        let p = r.0 + ink(x[k]) + r.1;
        let q = r.0 + ink(y[k]) + r.1;
        assert(p == q);
        assert(p.len() == q.len());
        assert(ink(x[k]) =~= p.subrange(r.0.len() as int, r.0.len() as int + ink(x[k]).len()));
        assert(ink(y[k]) =~= q.subrange(r.0.len() as int, r.0.len() as int + ink(y[k]).len()));
    }
    assert(same_but(a, b, f));
}

} // verus!
