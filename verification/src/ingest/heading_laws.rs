//! Which heading a text stands under, and how sections are cut.

use vstd::prelude::*;

use crate::ingest::chunk::{
    chunk_text, fence_after, group_lines, heading, kept_with, mark, nested, pack_all, pack_one, paragraphs_of,
    parts_of, scan_line, section_parts, streak, subject_of, titles, ChunkView,
    Scan, SectionView,
};
use crate::text::{
    blank, decimal_of, joined, trimmed, trimmed_lead, trimmed_tail, white, Class,
};

verus! {

// ── Headings ─────────────────────────────────────────────────────────────────────────

/// So many hashes.
pub open spec fn hashes(n: nat) -> Seq<char> {
    Seq::new(n, |i: int| '#')
}

proof fn lemma_hashes_are_led(n: nat, rest: Seq<char>)
    requires
        rest.len() > 0,
        rest[0] != '#',
    ensures
        trimmed_lead(hashes(n) + rest, Class::Hash) == rest,
    decreases n,
{
    let s = hashes(n) + rest;
    if n == 0 {
        assert(s =~= rest);
    } else {
        assert(s[0] == '#');
        assert(s.drop_first() =~= hashes((n - 1) as nat) + rest);
        lemma_hashes_are_led((n - 1) as nat, rest);
    }
}

/// One to six hashes, a space and a title are a heading of that level with that title; with more
/// hashes, or without the space, a line is text.
pub proof fn law_hashes_make_a_heading(n: nat, title: Seq<char>)
    requires
        title.len() > 0,
        !white(title[0]) && !white(title.last()),
        title[0] != '#' && title.last() != '#',
    ensures
        1 <= n <= 6 ==> heading(hashes(n) + seq![' '] + title) == Some((n, title)),
        n == 0 || n > 6 ==> heading(hashes(n) + seq![' '] + title) is None,
        n > 0 ==> heading(hashes(n) + title) is None,
{
    let rest = seq![' '] + title;
    let line = hashes(n) + seq![' '] + title;
    assert(line =~= hashes(n) + rest);
    lemma_hashes_are_led(n, rest);
    lemma_hashes_are_led(n, title);
    crate::text_laws::law_trimmed_texts_stay(title);
    if n > 0 {
        assert(line[0] == '#');
        assert(trimmed_lead(line, Class::White) == line);
        assert(trimmed(rest) == title) by {
            assert(rest.drop_first() =~= title);
            assert(white(' '));
        }
        assert(trimmed_tail(title, Class::Hash) == title);
        let bare = hashes(n) + title;
        assert(bare[0] == '#');
        assert(trimmed_lead(bare, Class::White) == bare);
    } else {
        assert(line =~= rest);
        assert(trimmed_lead(rest, Class::White) == trimmed_lead(title, Class::White)) by {
            assert(rest.drop_first() =~= title);
            assert(white(' '));
        }
        assert(trimmed_lead(title, Class::White) == title);
        assert(trimmed_lead(title, Class::Hash) == title);
    }
}

proof fn lemma_hashes_are_trailed(m: nat, front: Seq<char>)
    requires
        front.len() > 0,
        front.last() != '#',
    ensures
        trimmed_tail(front + hashes(m), Class::Hash) == front,
    decreases m,
{
    let s = front + hashes(m);
    if m == 0 {
        assert(s =~= front);
    } else {
        assert(s.last() == '#');
        assert(s.drop_last() =~= front + hashes((m - 1) as nat));
        lemma_hashes_are_trailed((m - 1) as nat, front);
    }
}

/// Hashes that close a heading are no part of its title.
pub proof fn law_closing_hashes_are_no_title(n: nat, title: Seq<char>, m: nat)
    requires
        1 <= n <= 6,
        title.len() > 0,
        !white(title[0]) && !white(title.last()),
        title[0] != '#' && title.last() != '#',
        m > 0,
    ensures
        heading(hashes(n) + seq![' '] + title + seq![' '] + hashes(m)) == Some((n, title)),
{
    let line = hashes(n) + seq![' '] + title + seq![' '] + hashes(m);
    let inner = title + seq![' '] + hashes(m);
    let rest = seq![' '] + inner;
    assert(line =~= hashes(n) + rest);
    lemma_hashes_are_led(n, rest);
    assert(line[0] == '#');
    assert(trimmed_lead(line, Class::White) == line);
    assert(white(' '));
    assert(inner[0] == title[0]);
    assert(inner.last() == '#');
    crate::text_laws::law_trimmed_texts_stay(inner);
    crate::text_laws::law_trimmed_texts_stay(title);
    assert(trimmed(rest) == inner) by {
        assert(rest.drop_first() =~= inner);
    }
    let front = title + seq![' '];
    assert(inner =~= front + hashes(m));
    lemma_hashes_are_trailed(m, front);
    assert(trimmed(front) == title) by {
        assert(trimmed_lead(front, Class::White) == front) by {
            assert(front[0] == title[0]);
        }
        assert(front.drop_last() =~= title);
        assert(trimmed_tail(title, Class::White) == title);
    }
}

/// A heading stands under the open headings of smaller levels, in their order, and closes the
/// others: those of its own level and below.
pub proof fn law_headings_nest_by_level(
    stack: Seq<(nat, Seq<char>)>,
    level: nat,
    title: Seq<char>,
    e: (nat, Seq<char>),
)
    ensures
        nested(stack, level, title).len() > 0,
        nested(stack, level, title).last() == (level, title),
        nested(stack, level, title).drop_last().contains(e) <==> stack.contains(e) && e.0 < level,
{
    let p = |e: (nat, Seq<char>)| e.0 < level;
    let kept = stack.filter(p);
    assert(nested(stack, level, title).drop_last() =~= kept);
    if kept.contains(e) {
        let k = choose|k: int| 0 <= k < kept.len() && kept[k] == e;
        stack.lemma_filter_pred(p, k);
        stack.lemma_filter_contains_rev(p, e);
    }
    if stack.contains(e) && p(e) {
        let k = choose|k: int| 0 <= k < stack.len() && stack[k] == e;
        stack.lemma_filter_contains(p, k);
    }
}

/// Are open headings nested: each of a larger level than the one before it?
pub open spec fn descending(stack: Seq<(nat, Seq<char>)>) -> bool {
    forall|i: int, j: int|
        0 <= i < j < stack.len() ==> (#[trigger] stack[i]).0 < (#[trigger] stack[j]).0
}

/// Where open headings are nested, a heading leaves the outermost ones open.
proof fn lemma_outermost_stay(
    stack: Seq<(nat, Seq<char>)>,
    level: nat,
    title: Seq<char>,
    n: int,
)
    requires
        descending(stack),
        0 <= n <= stack.len(),
        forall|i: int| 0 <= i < n ==> (#[trigger] stack[i]).0 < level,
        n < stack.len() ==> stack[n].0 >= level,
    ensures
        nested(stack, level, title) == stack.take(n).push((level, title)),
{
    let p = |e: (nat, Seq<char>)| e.0 < level;
    let head = stack.take(n);
    let tail = stack.skip(n);
    assert(head.filter(p) == head) by {
        assert forall|i: int| 0 <= i < head.len() implies p(#[trigger] head[i]) by {
            assert(stack[i].0 < level);
        }
        lemma_filter_keeps_all(head, p);
    }
    assert(tail.filter(p) == Seq::<(nat, Seq<char>)>::empty()) by {
        assert forall|i: int| 0 <= i < tail.len() implies !p(#[trigger] tail[i]) by {
            assert(tail[i] == stack[n + i]);
            if i > 0 {
                assert(stack[n].0 < stack[n + i].0);
            }
        }
        lemma_filter_keeps_none(tail, p);
    }
    assert(stack.filter(p) == head) by {
        assert(stack =~= head + tail);
        Seq::filter_distributes_over_add(head, tail, p);
        assert(head + Seq::<(nat, Seq<char>)>::empty() =~= head);
    }
}

/// Open headings stay nested, and where they are, those that stay open are the outermost ones: the
/// trail of a heading is the trail of the nearest heading above it with a smaller level, and its own
/// title.
pub proof fn law_trails_are_those_of_the_parent(
    stack: Seq<(nat, Seq<char>)>,
    level: nat,
    title: Seq<char>,
    n: int,
)
    requires
        descending(stack),
        0 <= n <= stack.len(),
        forall|i: int| 0 <= i < n ==> (#[trigger] stack[i]).0 < level,
        n < stack.len() ==> stack[n].0 >= level,
    ensures
        descending(nested(stack, level, title)),
        nested(stack, level, title) == stack.take(n).push((level, title)),
        titles(nested(stack, level, title)) == titles(stack).take(n).push(title),
{
    lemma_outermost_stay(stack, level, title, n);
    let after = stack.take(n).push((level, title));
    assert(descending(after)) by {
        assert forall|i: int, j: int| 0 <= i < j < after.len() implies (#[trigger] after[i]).0 < (
        #[trigger] after[j]).0 by {
            assert(after[i] == stack[i]);
            if j < n {
                assert(after[j] == stack[j]);
            }
        }
    }
    let expected = titles(stack).take(n).push(title);
    assert(titles(after) == expected) by {
        assert forall|i: int| 0 <= i < expected.len() implies #[trigger] titles(after)[i]
            == expected[i] by {
            assert(titles(after)[i] == after[i].1);
            if i < n {
                assert(after[i] == stack[i]);
                assert(titles(stack)[i] == stack[i].1);
            }
        }
        assert(titles(after) =~= expected);
    }
}

proof fn lemma_filter_keeps_all<T>(s: Seq<T>, p: spec_fn(T) -> bool)
    requires
        forall|i: int| 0 <= i < s.len() ==> p(#[trigger] s[i]),
    ensures
        s.filter(p) == s,
    decreases s.len(),
{
    reveal(Seq::filter);
    if s.len() > 0 {
        let rest = s.drop_last();
        assert forall|i: int| 0 <= i < rest.len() implies p(#[trigger] rest[i]) by {
            assert(p(s[i]));
        }
        lemma_filter_keeps_all(rest, p);
        assert(p(s[s.len() - 1]));
        assert(s.filter(p) =~= s);
    } else {
        assert(s.filter(p) =~= s);
    }
}

proof fn lemma_filter_keeps_none<T>(s: Seq<T>, p: spec_fn(T) -> bool)
    requires
        forall|i: int| 0 <= i < s.len() ==> !p(#[trigger] s[i]),
    ensures
        s.filter(p) == Seq::<T>::empty(),
    decreases s.len(),
{
    reveal(Seq::filter);
    if s.len() > 0 {
        let rest = s.drop_last();
        assert forall|i: int| 0 <= i < rest.len() implies !p(#[trigger] rest[i]) by {
            assert(!p(s[i]));
        }
        lemma_filter_keeps_none(rest, p);
        assert(!p(s[s.len() - 1]));
    }
}

// ── Sections ─────────────────────────────────────────────────────────────────────────

/// A heading outside a code block opens a section of its own, with nothing in it yet, and leaves
/// the one before it complete; every other line joins the section that is open, as it is, and so
/// does a heading inside a code block.
pub proof fn law_headings_open_sections(s: Scan, line: Seq<char>)
    ensures
        ({
            let after = scan_line(s, line);
            let opens = s.open is None && heading(line) is Some;
            &&& opens ==> {
                &&& after.current.body.len() == 0
                &&& after.current.path.len() > 0 && after.current.path.last() == (
                heading(line)->0).1
                &&& after.current.path == titles(after.stack)
                &&& after.done == kept_with(s.done, s.current)
                &&& after.open is None
            }
            &&& !opens ==> {
                &&& after.current.path == s.current.path
                &&& after.current.body == s.current.body + line + seq!['\n']
                &&& after.done == s.done && after.stack == s.stack
            }
        }),
{
    let after = scan_line(s, line);
    if !(s.open is None && heading(line) is Some) {
        assert(after.current.body =~= s.current.body + line + seq!['\n']);
    }
}

/// A section with text or with a heading is kept, and one with neither is not.
pub proof fn law_sections_with_text_are_kept(done: Seq<SectionView>, section: SectionView)
    ensures
        (exists|i: int| 0 <= i < section.body.len() && !white(#[trigger] section.body[i]))
            || section.path.len() > 0 ==> kept_with(done, section) == done.push(section),
        blank(section.body) && section.path.len() == 0 ==> kept_with(done, section) == done,
{
}

/// A code block is open from its fence to the next fence of its character that is at least as long;
/// no other line opens or closes one.
pub proof fn law_fences_close_what_they_open(open: Option<(char, nat)>, line: Seq<char>)
    ensures
        mark(line) is None ==> fence_after(open, line) == open,
        open is None ==> fence_after(open, line) == mark(line),
        open is Some && mark(line) is Some ==> {
            let o = open->0;
            let m = mark(line)->0;
            &&& m.0 == o.0 && m.1 >= o.1 ==> fence_after(open, line) is None
            &&& m.0 != o.0 || m.1 < o.1 ==> fence_after(open, line) == open
        },
{
}

proof fn lemma_streak_of(n: nat, c: char, rest: Seq<char>)
    requires
        rest.len() == 0 || rest[0] != c,
    ensures
        streak(Seq::new(n, |i: int| c) + rest, c) == n,
    decreases n,
{
    let s = Seq::new(n, |i: int| c) + rest;
    if n > 0 {
        assert(s[0] == c);
        assert(s.drop_first() =~= Seq::new((n - 1) as nat, |i: int| c) + rest);
        lemma_streak_of((n - 1) as nat, c, rest);
    } else {
        assert(s =~= rest);
    }
}

/// Three or more backticks, or tildes, draw a fence of that character and that length; fewer draw
/// none.
pub proof fn law_three_marks_draw_a_fence(n: nat, rest: Seq<char>)
    requires
        rest.len() == 0 || (rest[0] != '`' && rest[0] != '~' && !white(rest[0])),
    ensures
        n >= 3 ==> mark(Seq::new(n, |i: int| '`') + rest) == Some(('`', n)),
        n >= 3 ==> mark(Seq::new(n, |i: int| '~') + rest) == Some(('~', n)),
        n < 3 ==> mark(Seq::new(n, |i: int| '`') + rest) is None,
        n < 3 ==> mark(Seq::new(n, |i: int| '~') + rest) is None,
{
    let a = Seq::new(n, |i: int| '`') + rest;
    let b = Seq::new(n, |i: int| '~') + rest;
    lemma_streak_of(n, '`', rest);
    lemma_streak_of(n, '~', rest);
    assert(trimmed_lead(a, Class::White) == a) by {
        if n > 0 {
            assert(a[0] == '`');
        } else {
            assert(a =~= rest);
        }
    }
    assert(trimmed_lead(b, Class::White) == b) by {
        if n > 0 {
            assert(b[0] == '~');
        } else {
            assert(b =~= rest);
        }
    }
    if n > 0 {
        assert(a[0] == '`' && b[0] == '~');
        assert(streak(a, '~') == 0 && streak(b, '`') == 0);
    } else {
        assert(a =~= rest && b =~= rest);
    }
}

// ── Parts ────────────────────────────────────────────────────────────────────────────

/// A section that fits is not cut: it is one part, its whole body, white space around it aside.
pub proof fn law_sections_that_fit_stay_whole(section: SectionView, target: nat, max: nat)
    ensures
        trimmed(section.body).len() > 0 && joined(section.path, " > "@).len() + trimmed(
            section.body,
        ).len() <= max ==> section_parts(section, target, max) == seq![trimmed(section.body)],
        trimmed(section.body).len() == 0 ==> section_parts(section, target, max).len() == 0,
{
}

/// Parts are filled: no two that follow one another would fit into one.
pub proof fn law_parts_are_filled(body: Seq<char>, max: nat, i: int)
    requires
        0 <= i < parts_of(body, max).len() - 1,
    ensures
        parts_of(body, max)[i].len() + parts_of(body, max)[i + 1].len() > max,
{
    lemma_packing_is_filled(paragraphs_of(body), max);
    let p = pack_all(paragraphs_of(body), max);
    if i + 1 == p.done.len() {
        assert(p.done.last() == p.done[i]);
    } else {
        assert(p.done[i].len() + p.done[i + 1].len() > max);
    }
}

proof fn lemma_packing_is_filled(paragraphs: Seq<Seq<char>>, max: nat)
    ensures
        ({
            let p = pack_all(paragraphs, max);
            &&& forall|i: int, j: int|
                0 <= i && j == i + 1 && j < p.done.len() ==> (#[trigger] p.done[i]).len() + (
                #[trigger] p.done[j]).len() > max
            &&& p.done.len() > 0 ==> p.done.last().len() + p.current.len() > max
        }),
    decreases paragraphs.len(),
{
    if paragraphs.len() > 0 {
        let rest = paragraphs.drop_last();
        lemma_packing_is_filled(rest, max);
        let b = pack_all(rest, max);
        let a = pack_all(paragraphs, max);
        assert(a == pack_one(b, paragraphs.last(), max));
        assert forall|i: int, j: int| 0 <= i && j == i + 1 && j < a.done.len() implies (
        #[trigger] a.done[i]).len() + (#[trigger] a.done[j]).len() > max by {
            if j < b.done.len() {
                assert(b.done[i].len() + b.done[j].len() > max);
            } else {
                assert(a.done[i] == b.done.last());
            }
        }
    }
}

/// The text of a part stands under its trail, with a blank line between; without a trail it stands
/// alone.
pub proof fn law_texts_stand_under_their_trail(path: Seq<Seq<char>>, part: Seq<char>)
    ensures
        joined(path, " > "@).len() > 0 ==> chunk_text(path, part) == joined(path, " > "@) + "\n\n"@
            + trimmed(part),
        joined(path, " > "@).len() == 0 ==> chunk_text(path, part) == trimmed(part),
{
}

/// A chunk is addressed by its trail; one without a trail by its document, at the start, and by its
/// position otherwise; and a part behind the first by its number too.
pub proof fn law_chunks_are_addressed_by_their_trail(c: ChunkView, doc: Seq<char>, n: nat)
    ensures
        ({
            let t = joined(c.heading_path, " > "@);
            let base = subject_of(c, doc, Some(0));
            &&& subject_of(c, doc, None) == base
            &&& n > 0 ==> subject_of(c, doc, Some(n)) == base + "~"@ + decimal_of(n)
            &&& !blank(t) ==> base == doc + "#"@ + t
            &&& blank(t) && c.ordinal == 0 ==> base == doc
            &&& blank(t) && c.ordinal > 0 ==> base == doc + "#§"@ + decimal_of(c.ordinal)
        }),
{
}

/// A fence that closes ends its paragraph, and so does a blank line outside a fence. Every other line
/// goes on with the paragraph that it stands in, and no line of one is lost.
pub proof fn law_paragraphs_end_where_they_end(lines: Seq<Seq<char>>, line: Seq<char>)
    ensures
        ({
            let before = group_lines(lines);
            let after = group_lines(lines.push(line));
            let closes = before.open is Some && fence_after(before.open, line) is None;
            &&& closes ==> after.done == before.done.push(before.buf + line + seq!['\n'])
                && after.buf.len() == 0
            &&& before.open is None && blank(line) && !blank(before.buf) ==> after.done
                == before.done.push(before.buf) && after.buf.len() == 0
            &&& before.open is None && blank(line) && blank(before.buf) ==> after.done == before.done
                && after.buf.len() == 0
            &&& !closes && !(before.open is None && blank(line)) ==> after.done == before.done
                && after.buf == before.buf + line + seq!['\n'] && after.open == fence_after(
                before.open,
                line,
            )
        }),
        group_lines(seq![]).done.len() == 0 && group_lines(seq![]).buf.len() == 0,
{
    assert(lines.push(line).drop_last() =~= lines);
    let before = group_lines(lines);
    assert(before.buf + line.push('\n') =~= before.buf + line + seq!['\n']);
}

} // verus!
