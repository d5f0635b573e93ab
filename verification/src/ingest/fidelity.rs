//! Chunking loses no text and cuts no fenced code block.

use vstd::prelude::*;

use crate::ingest::chunk::{
    chunk_text, chunks_of, chunks_of_sections, fence_after, group_lines, heading, kept_with, mark,
    pack_all, paragraphs_of, parts_of, scan_lines, section_parts, sections_of, streak, trail,
    with_parts, ChunkView, SectionView,
};
use crate::text::{
    blank, chopped, find, lemma_find, lines_of, trimmed, trimmed_lead, trimmed_tail, white, Class,
};

verus! {

// ── Ink: what is not white space ─────────────────────────────────────────────────────

/// The characters of a text that are not white space.
pub open spec fn ink(s: Seq<char>) -> Seq<char>
    decreases s.len(),
{
    if s.len() == 0 {
        seq![]
    } else if white(s.last()) {
        ink(s.drop_last())
    } else {
        ink(s.drop_last()).push(s.last())
    }
}

pub proof fn lemma_ink_add(a: Seq<char>, b: Seq<char>)
    ensures
        ink(a + b) == ink(a) + ink(b),
    decreases b.len(),
{
    if b.len() == 0 {
        assert(a + b =~= a);
        assert(ink(a) + ink(b) =~= ink(a));
    } else {
        assert((a + b).drop_last() =~= a + b.drop_last());
        lemma_ink_add(a, b.drop_last());
        if !white(b.last()) {
            assert((ink(a) + ink(b.drop_last())).push(b.last()) =~= ink(a) + ink(b));
        }
    }
}

proof fn lemma_ink_push(a: Seq<char>, c: char)
    ensures
        ink(a.push(c)) == if white(c) {
            ink(a)
        } else {
            ink(a).push(c)
        },
{
    assert(a.push(c).drop_last() =~= a);
}

proof fn lemma_ink_blank(s: Seq<char>)
    requires
        blank(s),
    ensures
        ink(s) == Seq::<char>::empty(),
    decreases s.len(),
{
    if s.len() > 0 {
        assert(blank(s.drop_last()));
        assert(white(s[s.len() - 1]));
        lemma_ink_blank(s.drop_last());
    }
}

proof fn lemma_ink_lead(s: Seq<char>)
    ensures
        ink(trimmed_lead(s, Class::White)) == ink(s),
    decreases s.len(),
{
    if s.len() > 0 && white(s[0]) {
        lemma_ink_lead(s.drop_first());
        assert(seq![s[0]] + s.drop_first() =~= s);
        lemma_ink_add(seq![s[0]], s.drop_first());
        lemma_ink_blank(seq![s[0]]);
        assert(Seq::<char>::empty() + ink(s.drop_first()) =~= ink(s.drop_first()));
    }
}

proof fn lemma_ink_tail(s: Seq<char>)
    ensures
        ink(trimmed_tail(s, Class::White)) == ink(s),
    decreases s.len(),
{
    if s.len() > 0 && white(s.last()) {
        lemma_ink_tail(s.drop_last());
    }
}

/// Trimming takes no ink.
pub proof fn lemma_ink_trimmed(s: Seq<char>)
    ensures
        ink(trimmed(s)) == ink(s),
{
    lemma_ink_lead(s);
    lemma_ink_tail(trimmed_lead(s, Class::White));
}

/// The texts, one after the other.
pub open spec fn run(parts: Seq<Seq<char>>) -> Seq<char>
    decreases parts.len(),
{
    if parts.len() == 0 {
        seq![]
    } else {
        run(parts.drop_last()) + parts.last()
    }
}

pub proof fn lemma_run_add(a: Seq<Seq<char>>, b: Seq<Seq<char>>)
    ensures
        run(a + b) == run(a) + run(b),
    decreases b.len(),
{
    if b.len() == 0 {
        assert(a + b =~= a);
        assert(run(a) + run(b) =~= run(a));
    } else {
        assert((a + b).drop_last() =~= a + b.drop_last());
        lemma_run_add(a, b.drop_last());
        assert(run(a) + run(b.drop_last()) + b.last() =~= run(a) + (run(b.drop_last()) + b.last()));
    }
}

proof fn lemma_run_push(a: Seq<Seq<char>>, x: Seq<char>)
    ensures
        run(a.push(x)) == run(a) + x,
        ink(run(a.push(x))) == ink(run(a)) + ink(x),
{
    assert(a.push(x).drop_last() =~= a);
    lemma_ink_add(run(a), x);
}

/// Cutting a text into lines takes no ink.
pub proof fn lemma_ink_lines(s: Seq<char>)
    ensures
        ink(run(lines_of(s))) == ink(s),
    decreases s.len(),
{
    lemma_find(s, '\n');
    let n = find(s, '\n');
    if s.len() == 0 {
    } else if n >= s.len() {
        assert(seq![s].drop_last() =~= Seq::<Seq<char>>::empty());
        assert(Seq::<char>::empty() + s =~= s);
        reveal_with_fuel(run, 2);
    } else {
        let head = s.take(n);
        let rest = s.skip(n + 1);
        lemma_ink_lines(rest);
        lemma_run_add(seq![chopped(head)], lines_of(rest));
        assert(run(seq![chopped(head)]) =~= chopped(head)) by {
            assert(seq![chopped(head)].drop_last() =~= Seq::<Seq<char>>::empty());
            reveal_with_fuel(run, 2);
        }
        lemma_ink_add(chopped(head), run(lines_of(rest)));
        assert(ink(chopped(head)) == ink(head)) by {
            if head.len() > 0 && head.last() == '\r' {
                assert(head =~= chopped(head).push('\r'));
                lemma_ink_push(chopped(head), '\r');
            }
        }
        assert(s =~= head.push('\n') + rest);
        lemma_ink_add(head.push('\n'), rest);
        lemma_ink_push(head, '\n');
    }
}

// ── Packing ──────────────────────────────────────────────────────────────────────────

proof fn lemma_ink_line(buf: Seq<char>, line: Seq<char>)
    ensures
        ink(buf + line.push('\n')) == ink(buf) + ink(line),
{
    lemma_ink_add(buf, line.push('\n'));
    lemma_ink_push(line, '\n');
}

proof fn lemma_ink_group(lines: Seq<Seq<char>>)
    ensures
        ({
            let g = group_lines(lines);
            ink(run(g.done)) + ink(g.buf) == ink(run(lines))
        }),
    decreases lines.len(),
{
    let g = group_lines(lines);
    if lines.len() == 0 {
        assert(ink(run(g.done)) + ink(g.buf) =~= ink(run(lines)));
    } else {
        let line = lines.last();
        let b = group_lines(lines.drop_last());
        lemma_ink_group(lines.drop_last());
        lemma_ink_add(run(lines.drop_last()), line);
        lemma_ink_line(b.buf, line);
        lemma_run_push(b.done, b.buf + line.push('\n'));
        lemma_run_push(b.done, b.buf);
        if blank(line) {
            lemma_ink_blank(line);
        }
        if blank(b.buf) {
            lemma_ink_blank(b.buf);
        }
        assert(ink(run(b.done)) + (ink(b.buf) + ink(line)) =~= ink(run(b.done)) + ink(b.buf) + ink(
            line,
        ));
        assert(ink(run(g.done)) + ink(g.buf) =~= ink(run(b.done)) + ink(b.buf) + ink(line));
    }
}

proof fn lemma_ink_paragraphs(body: Seq<char>)
    ensures
        ink(run(paragraphs_of(body))) == ink(body),
{
    let g = group_lines(lines_of(body));
    lemma_ink_group(lines_of(body));
    lemma_ink_lines(body);
    if blank(g.buf) {
        lemma_ink_blank(g.buf);
        assert(ink(run(g.done)) + ink(g.buf) =~= ink(run(g.done)));
    } else {
        lemma_run_push(g.done, g.buf);
    }
}

proof fn lemma_ink_pack(paragraphs: Seq<Seq<char>>, max: nat)
    ensures
        ({
            let p = pack_all(paragraphs, max);
            ink(run(p.done)) + ink(p.current) == ink(run(paragraphs))
        }),
    decreases paragraphs.len(),
{
    let p = pack_all(paragraphs, max);
    if paragraphs.len() == 0 {
        assert(ink(run(p.done)) + ink(p.current) =~= ink(run(paragraphs)));
    } else {
        let x = paragraphs.last();
        let b = pack_all(paragraphs.drop_last(), max);
        lemma_ink_pack(paragraphs.drop_last(), max);
        lemma_ink_add(run(paragraphs.drop_last()), x);
        lemma_ink_line(b.current, x);
        lemma_ink_push(x, '\n');
        lemma_run_push(b.done, b.current);
        assert(ink(run(b.done)) + (ink(b.current) + ink(x)) =~= ink(run(b.done)) + ink(b.current)
            + ink(x));
        assert(ink(run(p.done)) + ink(p.current) =~= ink(run(b.done)) + ink(b.current) + ink(x));
    }
}

/// Packing takes no ink.
proof fn lemma_ink_parts(body: Seq<char>, max: nat)
    ensures
        ink(run(parts_of(body, max))) == ink(body),
{
    let p = pack_all(paragraphs_of(body), max);
    lemma_ink_paragraphs(body);
    lemma_ink_pack(paragraphs_of(body), max);
    if blank(p.current) {
        lemma_ink_blank(p.current);
        assert(ink(run(p.done)) + ink(p.current) =~= ink(run(p.done)));
    } else {
        lemma_run_push(p.done, p.current);
    }
}

proof fn lemma_ink_section(section: SectionView, target: nat, max: nat)
    ensures
        ink(run(section_parts(section, target, max))) == ink(section.body),
{
    let body = trimmed(section.body);
    lemma_ink_trimmed(section.body);
    lemma_ink_parts(body, target);
    assert(seq![body].drop_last() =~= Seq::<Seq<char>>::empty());
    reveal_with_fuel(run, 2);
    assert(Seq::<char>::empty() + body =~= body);
}

// ── Sections and chunks ──────────────────────────────────────────────────────────────

/// The lines of a document that are not headings, one after the other.
pub open spec fn prose(lines: Seq<Seq<char>>) -> Seq<char>
    decreases lines.len(),
{
    if lines.len() == 0 {
        seq![]
    } else {
        let line = lines.last();
        let before = lines.drop_last();
        if scan_lines(before).open is None && heading(line) is Some {
            prose(before)
        } else {
            prose(before) + line
        }
    }
}

/// The bodies of sections.
pub open spec fn bodies(sections: Seq<SectionView>) -> Seq<Seq<char>> {
    sections.map_values(|s: SectionView| s.body)
}

proof fn lemma_ink_kept(done: Seq<SectionView>, section: SectionView)
    ensures
        ink(run(bodies(kept_with(done, section)))) == ink(run(bodies(done))) + ink(section.body),
{
    if section.kept() {
        assert(bodies(done.push(section)) =~= bodies(done).push(section.body));
        lemma_run_push(bodies(done), section.body);
    } else {
        lemma_ink_blank(section.body);
        assert(ink(run(bodies(done))) + ink(section.body) =~= ink(run(bodies(done))));
    }
}

proof fn lemma_ink_scan(lines: Seq<Seq<char>>)
    ensures
        ({
            let s = scan_lines(lines);
            ink(run(bodies(s.done))) + ink(s.current.body) == ink(prose(lines))
        }),
    decreases lines.len(),
{
    let s = scan_lines(lines);
    if lines.len() == 0 {
        assert(bodies(s.done) =~= seq![]);
        assert(ink(run(bodies(s.done))) + ink(s.current.body) =~= ink(prose(lines)));
    } else {
        let line = lines.last();
        let b = scan_lines(lines.drop_last());
        lemma_ink_scan(lines.drop_last());
        lemma_ink_kept(b.done, b.current);
        lemma_ink_line(b.current.body, line);
        lemma_ink_add(prose(lines.drop_last()), line);
        assert(ink(run(bodies(b.done))) + (ink(b.current.body) + ink(line)) =~= ink(
            run(bodies(b.done)),
        ) + ink(b.current.body) + ink(line));
        assert(ink(run(bodies(s.done))) + ink(s.current.body) =~= ink(prose(lines)));
    }
}

proof fn lemma_ink_sections(markdown: Seq<char>)
    ensures
        ink(run(bodies(sections_of(markdown)))) == ink(prose(lines_of(markdown))),
{
    let s = scan_lines(lines_of(markdown));
    lemma_ink_scan(lines_of(markdown));
    lemma_ink_kept(s.done, s.current);
}

/// The text of a chunk behind its trail.
pub open spec fn own_text(c: ChunkView) -> Seq<char> {
    let t = trail(c.heading_path);
    if t.len() == 0 {
        c.text
    } else {
        c.text.skip(t.len() as int + 2)
    }
}

/// The texts of chunks behind their trails.
pub open spec fn own_texts(out: Seq<(ChunkView, nat)>) -> Seq<Seq<char>> {
    out.map_values(|e: (ChunkView, nat)| own_text(e.0))
}

proof fn lemma_own_text(path: Seq<Seq<char>>, part: Seq<char>, ordinal: nat)
    ensures
        own_text(ChunkView { heading_path: path, text: chunk_text(path, part), ordinal })
            == trimmed(part),
        blank(chunk_text(path, part)) ==> blank(trimmed(part)),
{
    reveal_strlit("\n\n");
    let t = trail(path);
    let text = chunk_text(path, part);
    if t.len() > 0 {
        assert(text.skip(t.len() as int + 2) =~= trimmed(part));
        if blank(text) {
            assert forall|i: int| 0 <= i < trimmed(part).len() implies white(
                #[trigger] trimmed(part)[i],
            ) by {
                assert(white(text[t.len() + 2 + i]));
            }
        }
    }
}

proof fn lemma_ink_with_parts(
    out: Seq<(ChunkView, nat)>,
    path: Seq<Seq<char>>,
    parts: Seq<Seq<char>>,
    n: nat,
)
    requires
        n <= parts.len(),
    ensures
        ink(run(own_texts(with_parts(out, path, parts, n)))) == ink(run(own_texts(out))) + ink(
            run(parts.take(n as int)),
        ),
    decreases n,
{
    if n == 0 {
        assert(parts.take(0) =~= seq![]);
        assert(ink(run(own_texts(out))) + ink(run(parts.take(0))) =~= ink(run(own_texts(out))));
    } else {
        let before = with_parts(out, path, parts, (n - 1) as nat);
        let part = parts[n - 1];
        lemma_ink_with_parts(out, path, parts, (n - 1) as nat);
        assert(parts.take(n as int).drop_last() =~= parts.take(n - 1));
        lemma_ink_add(run(parts.take(n - 1)), part);
        lemma_own_text(path, part, before.len());
        lemma_ink_trimmed(part);
        let text = chunk_text(path, part);
        if blank(text) {
            lemma_ink_blank(trimmed(part));
        } else {
            let c = ChunkView { heading_path: path, text, ordinal: before.len() };
            assert(own_texts(with_parts(out, path, parts, n)) =~= own_texts(before).push(
                own_text(c),
            ));
            lemma_run_push(own_texts(before), own_text(c));
        }
        assert(ink(run(own_texts(with_parts(out, path, parts, n)))) =~= ink(run(own_texts(out)))
            + ink(run(parts.take(n as int))));
    }
}

proof fn lemma_ink_chunks(sections: Seq<SectionView>, target: nat, max: nat)
    ensures
        ink(run(own_texts(chunks_of_sections(sections, target, max)))) == ink(
            run(bodies(sections)),
        ),
    decreases sections.len(),
{
    if sections.len() == 0 {
        assert(own_texts(chunks_of_sections(sections, target, max)) =~= seq![]);
        assert(bodies(sections) =~= seq![]);
    } else {
        let rest = sections.drop_last();
        let last = sections.last();
        let parts = section_parts(last, target, max);
        lemma_ink_chunks(rest, target, max);
        lemma_ink_with_parts(
            chunks_of_sections(rest, target, max),
            last.path,
            parts,
            parts.len(),
        );
        assert(parts.take(parts.len() as int) =~= parts);
        lemma_ink_section(last, target, max);
        assert(bodies(sections).drop_last() =~= bodies(rest));
        lemma_ink_add(run(bodies(rest)), last.body);
    }
}

/// Chunking loses no text: behind their trails, the chunks hold every character of the lines that
/// are not headings, in order, white space aside.
pub proof fn law_no_text_is_lost(markdown: Seq<char>, target: nat, max: nat)
    ensures
        ink(run(own_texts(chunks_of(markdown, target, max)))) == ink(
            prose(lines_of(markdown)),
        ),
{
    lemma_ink_sections(markdown);
    lemma_ink_chunks(sections_of(markdown), target, max);
}

// ── Fenced code blocks ───────────────────────────────────────────────────────────────

/// A fence: its character and its length.
pub type Fence = (char, nat);

/// The fence that is open after some lines, where `open` was open before them.
pub open spec fn open_after(open: Option<Fence>, lines: Seq<Seq<char>>) -> Option<Fence>
    decreases lines.len(),
{
    if lines.len() == 0 {
        open
    } else {
        fence_after(open_after(open, lines.drop_last()), lines.last())
    }
}

/// The fence that is open after a text.
pub open spec fn left_open(open: Option<Fence>, s: Seq<char>) -> Option<Fence> {
    open_after(open, lines_of(s))
}

/// Does a text close every fenced block that it opens?
pub open spec fn shut(s: Seq<char>) -> bool {
    left_open(None, s) is None
}

proof fn lemma_open_add(open: Option<Fence>, a: Seq<Seq<char>>, b: Seq<Seq<char>>)
    ensures
        open_after(open, a + b) == open_after(open_after(open, a), b),
    decreases b.len(),
{
    if b.len() == 0 {
        assert(a + b =~= a);
    } else {
        assert((a + b).drop_last() =~= a + b.drop_last());
        lemma_open_add(open, a, b.drop_last());
    }
}

proof fn lemma_open_one(open: Option<Fence>, line: Seq<char>)
    ensures
        open_after(open, seq![line]) == fence_after(open, line),
{
    assert(seq![line].drop_last() =~= Seq::<Seq<char>>::empty());
    reveal_with_fuel(open_after, 2);
}

spec fn one_line(s: Seq<char>) -> bool {
    forall|i: int| 0 <= i < s.len() ==> #[trigger] s[i] != '\n'
}

spec fn whole_lines(s: Seq<char>) -> bool {
    s.len() > 0 ==> s.last() == '\n'
}

proof fn lemma_lines_have_no_end(s: Seq<char>, i: int)
    requires
        0 <= i < lines_of(s).len(),
    ensures
        one_line(lines_of(s)[i]),
    decreases s.len(),
{
    let n = find(s, '\n');
    lemma_find(s, '\n');
    if s.len() > 0 && n < s.len() {
        if i > 0 {
            lemma_lines_have_no_end(s.skip(n + 1), i - 1);
        }
    }
}

proof fn lemma_find_is(s: Seq<char>, c: char, n: int)
    requires
        0 <= n < s.len(),
        s[n] == c,
        forall|i: int| 0 <= i < n ==> #[trigger] s[i] != c,
    ensures
        find(s, c) == n,
{
    lemma_find(s, c);
    let m = find(s, c);
    if m < n {
        assert(s[m] != c);
    }
}

/// Lines that are whole keep to themselves.
proof fn lemma_lines_add(a: Seq<char>, b: Seq<char>)
    requires
        whole_lines(a),
    ensures
        lines_of(a + b) == lines_of(a) + lines_of(b),
    decreases a.len(),
{
    if a.len() == 0 {
        assert(a + b =~= b);
        assert(lines_of(a) + lines_of(b) =~= lines_of(b));
    } else {
        let n = find(a, '\n');
        lemma_find(a, '\n');
        assert(a[a.len() - 1] == '\n');
        assert(n < a.len());
        assert forall|i: int| 0 <= i < n implies #[trigger] (a + b)[i] != '\n' by {
            assert(a[i] != '\n');
        }
        lemma_find_is(a + b, '\n', n);
        assert((a + b).take(n) =~= a.take(n));
        assert((a + b).skip(n + 1) =~= a.skip(n + 1) + b);
        lemma_lines_add(a.skip(n + 1), b);
        assert(seq![chopped(a.take(n))] + (lines_of(a.skip(n + 1)) + lines_of(b)) =~= seq![
            chopped(a.take(n)),
        ] + lines_of(a.skip(n + 1)) + lines_of(b));
    }
}

proof fn lemma_left_add(open: Option<Fence>, a: Seq<char>, b: Seq<char>)
    requires
        whole_lines(a),
    ensures
        left_open(open, a + b) == left_open(left_open(open, a), b),
{
    lemma_lines_add(a, b);
    lemma_open_add(open, lines_of(a), lines_of(b));
}

proof fn lemma_streak_drop_last(s: Seq<char>, c: char)
    requires
        s.len() > 0,
        s.last() != c,
    ensures
        streak(s.drop_last(), c) == streak(s, c),
    decreases s.len(),
{
    let t = s.drop_last();
    if s.len() > 1 && s[0] == c {
        lemma_streak_drop_last(s.drop_first(), c);
        assert(s.drop_first().drop_last() =~= t.drop_first());
        assert(t[0] == s[0]);
    } else if s.len() == 1 {
        assert(s[0] == s.last());
    }
}

/// A fence is told by the first characters that are not white space, so that white space at
/// either end of a line does not matter.
proof fn lemma_mark_drop_last(line: Seq<char>)
    requires
        line.len() > 0,
        white(line.last()),
    ensures
        mark(line.drop_last()) == mark(line),
    decreases line.len(),
{
    let t = line.drop_last();
    if white(line[0]) {
        if line.len() > 1 {
            lemma_mark_drop_last(line.drop_first());
            assert(line.drop_first().drop_last() =~= t.drop_first());
            assert(t[0] == line[0]);
        } else {
            assert(t =~= seq![]);
            assert(line.drop_first() =~= seq![]);
            assert(trimmed_lead(line, Class::White) == trimmed_lead(
                line.drop_first(),
                Class::White,
            ));
        }
    } else {
        assert(trimmed_lead(line, Class::White) == line);
        assert(t.len() > 0 && t[0] == line[0]);
        assert(trimmed_lead(t, Class::White) == t);
        lemma_streak_drop_last(line, '`');
        lemma_streak_drop_last(line, '~');
    }
}

proof fn lemma_mark_drop_first(line: Seq<char>)
    requires
        line.len() > 0,
        white(line[0]),
    ensures
        mark(line.drop_first()) == mark(line),
{
}

proof fn lemma_mark_chopped(line: Seq<char>)
    ensures
        mark(chopped(line)) == mark(line),
{
    if line.len() > 0 && line.last() == '\r' {
        lemma_mark_drop_last(line);
    }
}

proof fn lemma_left_line(open: Option<Fence>, line: Seq<char>)
    requires
        one_line(line),
    ensures
        left_open(open, line.push('\n')) == fence_after(open, line),
{
    let s = line.push('\n');
    assert forall|i: int| 0 <= i < line.len() implies #[trigger] s[i] != '\n' by {
        assert(line[i] != '\n');
    }
    lemma_find_is(s, '\n', line.len() as int);
    assert(s.take(line.len() as int) =~= line);
    assert(s.skip(line.len() as int + 1) =~= seq![]);
    assert(lines_of(s) =~= seq![chopped(line)]) by {
        reveal_with_fuel(lines_of, 2);
    }
    lemma_open_one(open, chopped(line));
    lemma_mark_chopped(line);
}

proof fn lemma_blank_line_draws_none(line: Seq<char>)
    requires
        blank(line),
    ensures
        mark(line) is None,
    decreases line.len(),
{
    if line.len() > 0 {
        assert(white(line[0]));
        assert forall|i: int| 0 <= i < line.drop_first().len() implies white(
            #[trigger] line.drop_first()[i],
        ) by {
            assert(white(line[i + 1]));
        }
        lemma_blank_line_draws_none(line.drop_first());
    }
}

proof fn lemma_left_blank(open: Option<Fence>, s: Seq<char>)
    requires
        blank(s),
    ensures
        left_open(open, s) == open,
    decreases s.len(),
{
    let n = find(s, '\n');
    lemma_find(s, '\n');
    if s.len() == 0 {
    } else if n >= s.len() {
        lemma_open_one(open, s);
        lemma_blank_line_draws_none(s);
    } else {
        let head = chopped(s.take(n));
        assert(blank(s.skip(n + 1))) by {
            assert forall|i: int| 0 <= i < s.skip(n + 1).len() implies white(
                #[trigger] s.skip(n + 1)[i],
            ) by {
                assert(white(s[n + 1 + i]));
            }
        }
        assert(blank(head)) by {
            assert forall|i: int| 0 <= i < head.len() implies white(#[trigger] head[i]) by {
                assert(white(s[i]));
            }
        }
        lemma_left_blank(open, s.skip(n + 1));
        lemma_blank_line_draws_none(head);
        lemma_open_one(open, head);
        lemma_open_add(open, seq![head], lines_of(s.skip(n + 1)));
    }
}

/// What holds of a list of texts that cuts no fenced block.
spec fn uncut(parts: Seq<Seq<char>>) -> bool {
    forall|i: int| 0 <= i < parts.len() ==> whole_lines(#[trigger] parts[i]) && shut(parts[i])
}

proof fn lemma_fences_group(lines: Seq<Seq<char>>)
    requires
        forall|i: int| 0 <= i < lines.len() ==> one_line(#[trigger] lines[i]),
    ensures
        ({
            let g = group_lines(lines);
            &&& uncut(g.done)
            &&& whole_lines(g.buf)
            &&& left_open(None, g.buf) == g.open
            &&& open_after(None, lines) == g.open
        }),
    decreases lines.len(),
{
    if lines.len() > 0 {
        let line = lines.last();
        let b = group_lines(lines.drop_last());
        lemma_fences_group(lines.drop_last());
        lemma_left_add(None, b.buf, line.push('\n'));
        lemma_left_line(b.open, line);
        let longer = b.buf + line.push('\n');
        assert(longer.last() == '\n');
        if blank(line) {
            lemma_blank_line_draws_none(line);
        }
    }
}

/// All texts but the last cut no fenced block, and the last one leaves `open` open.
spec fn cut_at_end(parts: Seq<Seq<char>>, open: Option<Fence>) -> bool {
    if parts.len() == 0 {
        open is None
    } else {
        uncut(parts.drop_last()) && left_open(None, parts.last()) == open
    }
}

proof fn lemma_fences_paragraphs(body: Seq<char>)
    ensures
        cut_at_end(paragraphs_of(body), left_open(None, body)),
        forall|i: int|
            0 <= i < paragraphs_of(body).len() ==> whole_lines(#[trigger] paragraphs_of(body)[i]),
{
    let lines = lines_of(body);
    assert forall|i: int| 0 <= i < lines.len() implies one_line(#[trigger] lines[i]) by {
        lemma_lines_have_no_end(body, i);
    }
    lemma_fences_group(lines);
    let g = group_lines(lines);
    if blank(g.buf) {
        lemma_left_blank(None, g.buf);
        if g.done.len() > 0 {
            let last = g.done[g.done.len() - 1];
            assert(shut(last));
        }
    } else {
        assert(g.done.push(g.buf).drop_last() =~= g.done);
    }
}

proof fn lemma_fences_pack(paragraphs: Seq<Seq<char>>, max: nat, open: Option<Fence>)
    requires
        cut_at_end(paragraphs, open),
        forall|i: int| 0 <= i < paragraphs.len() ==> whole_lines(#[trigger] paragraphs[i]),
    ensures
        ({
            let p = pack_all(paragraphs, max);
            &&& uncut(p.done)
            &&& whole_lines(p.current)
            &&& left_open(None, p.current) == open
        }),
    decreases paragraphs.len(),
{
    if paragraphs.len() > 0 {
        let rest = paragraphs.drop_last();
        let x = paragraphs.last();
        let b = pack_all(rest, max);
        if rest.len() > 0 {
            let y = rest[rest.len() - 1];
            assert(shut(y));
        }
        assert forall|i: int| 0 <= i < rest.len() implies whole_lines(#[trigger] rest[i]) by {
            assert(rest[i] == paragraphs[i]);
        }
        assert(rest.len() > 0 ==> uncut(rest.drop_last())) by {
            if rest.len() > 0 {
                assert forall|i: int| 0 <= i < rest.drop_last().len() implies whole_lines(
                    #[trigger] rest.drop_last()[i],
                ) && shut(rest.drop_last()[i]) by {
                    assert(rest.drop_last()[i] == rest[i]);
                }
            }
        }
        lemma_fences_pack(rest, max, None);
        assert(whole_lines(x)) by {
            assert(x == paragraphs[paragraphs.len() - 1]);
        }
        lemma_left_add(None, x, seq!['\n']);
        assert(x + seq!['\n'] =~= x.push('\n'));
        lemma_left_blank(open, seq!['\n']);
        lemma_left_add(None, b.current, x.push('\n'));
    }
}

proof fn lemma_fences_parts(body: Seq<char>, max: nat)
    ensures
        cut_at_end(parts_of(body, max), left_open(None, body)),
{
    let open = left_open(None, body);
    lemma_fences_paragraphs(body);
    lemma_fences_pack(paragraphs_of(body), max, open);
    let p = pack_all(paragraphs_of(body), max);
    if blank(p.current) {
        lemma_left_blank(None, p.current);
        if p.done.len() > 0 {
            assert(shut(p.done[p.done.len() - 1]));
        }
    } else {
        assert(p.done.push(p.current).drop_last() =~= p.done);
    }
}

proof fn lemma_left_of_one(open: Option<Fence>, s: Seq<char>)
    requires
        one_line(s),
    ensures
        left_open(open, s) == fence_after(open, s),
{
    lemma_find(s, '\n');
    if find(s, '\n') < s.len() {
        assert(s[find(s, '\n')] == '\n');
    }
    if s.len() == 0 {
        lemma_blank_line_draws_none(s);
    } else {
        lemma_open_one(open, s);
    }
}

/// What a text leaves open is what its first line leaves open, and then the rest.
proof fn lemma_left_head(open: Option<Fence>, s: Seq<char>, n: int)
    requires
        0 <= n < s.len(),
        s[n] == '\n',
        one_line(s.take(n)),
    ensures
        left_open(open, s) == left_open(fence_after(open, s.take(n)), s.skip(n + 1)),
{
    assert(s =~= s.take(n).push('\n') + s.skip(n + 1));
    lemma_left_add(open, s.take(n).push('\n'), s.skip(n + 1));
    lemma_left_line(open, s.take(n));
}

proof fn lemma_left_drop_first(open: Option<Fence>, s: Seq<char>)
    requires
        s.len() > 0,
        white(s[0]),
    ensures
        left_open(open, s.drop_first()) == left_open(open, s),
{
    let n = find(s, '\n');
    lemma_find(s, '\n');
    let t = s.drop_first();
    if n >= s.len() {
        assert(one_line(s));
        assert forall|i: int| 0 <= i < t.len() implies #[trigger] t[i] != '\n' by {
            assert(s[i + 1] != '\n');
        }
        lemma_left_of_one(open, s);
        lemma_left_of_one(open, t);
        lemma_mark_drop_first(s);
    } else {
        assert(one_line(s.take(n))) by {
            assert forall|i: int| 0 <= i < n implies #[trigger] s.take(n)[i] != '\n' by {
                assert(s[i] != '\n');
            }
        }
        lemma_left_head(open, s, n);
        if n == 0 {
            assert(s.skip(1) =~= t);
            lemma_blank_line_draws_none(s.take(0));
        } else {
            assert(t.take(n - 1) =~= s.take(n).drop_first());
            assert(t.skip(n) =~= s.skip(n + 1));
            assert forall|i: int| 0 <= i < n - 1 implies #[trigger] t.take(n - 1)[i] != '\n' by {
                assert(s[i + 1] != '\n');
            }
            lemma_left_head(open, t, n - 1);
            lemma_mark_drop_first(s.take(n));
        }
    }
}

proof fn lemma_left_drop_last(open: Option<Fence>, s: Seq<char>)
    requires
        s.len() > 0,
        white(s.last()),
    ensures
        left_open(open, s.drop_last()) == left_open(open, s),
    decreases s.len(),
{
    let n = find(s, '\n');
    lemma_find(s, '\n');
    let t = s.drop_last();
    if n >= s.len() {
        assert forall|i: int| 0 <= i < t.len() implies #[trigger] t[i] != '\n' by {
            assert(s[i] != '\n');
        }
        lemma_left_of_one(open, s);
        lemma_left_of_one(open, t);
        lemma_mark_drop_last(s);
    } else {
        assert forall|i: int| 0 <= i < n implies #[trigger] s.take(n)[i] != '\n' by {
            assert(s[i] != '\n');
        }
        lemma_left_head(open, s, n);
        if n == s.len() - 1 {
            assert(s.take(n) =~= t);
            lemma_left_of_one(open, t);
            assert(s.skip(n + 1) =~= seq![]);
        } else {
            assert(t.take(n) =~= s.take(n));
            assert(t.skip(n + 1) =~= s.skip(n + 1).drop_last());
            lemma_left_head(open, t, n);
            lemma_left_drop_last(fence_after(open, s.take(n)), s.skip(n + 1));
        }
    }
}

proof fn lemma_left_lead(open: Option<Fence>, s: Seq<char>)
    ensures
        left_open(open, trimmed_lead(s, Class::White)) == left_open(open, s),
    decreases s.len(),
{
    if s.len() > 0 && white(s[0]) {
        lemma_left_drop_first(open, s);
        lemma_left_lead(open, s.drop_first());
    }
}

proof fn lemma_left_tail(open: Option<Fence>, s: Seq<char>)
    ensures
        left_open(open, trimmed_tail(s, Class::White)) == left_open(open, s),
    decreases s.len(),
{
    if s.len() > 0 && white(s.last()) {
        lemma_left_drop_last(open, s);
        lemma_left_tail(open, s.drop_last());
    }
}

/// Trimming takes no fence.
proof fn lemma_left_trimmed(open: Option<Fence>, s: Seq<char>)
    ensures
        left_open(open, trimmed(s)) == left_open(open, s),
{
    lemma_left_lead(open, s);
    lemma_left_tail(open, trimmed_lead(s, Class::White));
}

proof fn lemma_fences_section(section: SectionView, target: nat, max: nat)
    ensures
        cut_at_end(section_parts(section, target, max), left_open(None, section.body)),
{
    let body = trimmed(section.body);
    lemma_left_trimmed(None, section.body);
    if body.len() > 0 {
        lemma_fences_parts(body, target);
        assert(seq![body].drop_last() =~= seq![]);
    }
}

/// All but the last section cut no fenced block, and the last one leaves `open` open.
spec fn sections_cut_at_end(sections: Seq<SectionView>, open: Option<Fence>) -> bool {
    if sections.len() == 0 {
        open is None
    } else {
        &&& forall|i: int| 0 <= i < sections.len() - 1 ==> shut((#[trigger] sections[i]).body)
        &&& left_open(None, sections.last().body) == open
    }
}

spec fn closed_sections(sections: Seq<SectionView>) -> bool {
    forall|i: int| 0 <= i < sections.len() ==> shut((#[trigger] sections[i]).body)
}

proof fn lemma_heading_is_no_fence(line: Seq<char>)
    requires
        heading(line) is Some,
    ensures
        mark(line) is None,
{
    let t = trimmed_lead(line, Class::White);
    assert(t.len() > 0 && t[0] == '#');
}

proof fn lemma_fences_scan(lines: Seq<Seq<char>>)
    requires
        forall|i: int| 0 <= i < lines.len() ==> one_line(#[trigger] lines[i]),
    ensures
        ({
            let s = scan_lines(lines);
            &&& closed_sections(s.done)
            &&& whole_lines(s.current.body)
            &&& left_open(None, s.current.body) == s.open
            &&& open_after(None, lines) == s.open
        }),
    decreases lines.len(),
{
    if lines.len() > 0 {
        let line = lines.last();
        let b = scan_lines(lines.drop_last());
        lemma_fences_scan(lines.drop_last());
        lemma_left_add(None, b.current.body, line.push('\n'));
        lemma_left_line(b.open, line);
        let longer = b.current.body + line.push('\n');
        assert(longer.last() == '\n');
        if heading(line) is Some {
            lemma_heading_is_no_fence(line);
        }
    }
}

proof fn lemma_fences_sections(markdown: Seq<char>)
    ensures
        sections_cut_at_end(sections_of(markdown), left_open(None, markdown)),
{
    let lines = lines_of(markdown);
    assert forall|i: int| 0 <= i < lines.len() implies one_line(#[trigger] lines[i]) by {
        lemma_lines_have_no_end(markdown, i);
    }
    lemma_fences_scan(lines);
    let s = scan_lines(lines);
    if !s.current.kept() {
        lemma_left_blank(None, s.current.body);
        if s.done.len() > 0 {
            assert(shut(s.done[s.done.len() - 1].body));
        }
    } else {
        let all = s.done.push(s.current);
        assert forall|i: int| 0 <= i < all.len() - 1 implies shut(
            (#[trigger] all[i]).body,
        ) by {
            assert(all[i] == s.done[i]);
        }
    }
}

/// All but the last chunk hold whole fenced blocks, and the last one leaves `open` open.
spec fn chunks_cut_at_end(out: Seq<(ChunkView, nat)>, open: Option<Fence>) -> bool {
    if out.len() == 0 {
        open is None
    } else {
        &&& forall|i: int| 0 <= i < out.len() - 1 ==> shut(own_text((#[trigger] out[i]).0))
        &&& left_open(None, own_text(out.last().0)) == open
    }
}

proof fn lemma_fences_with_parts(
    out: Seq<(ChunkView, nat)>,
    path: Seq<Seq<char>>,
    parts: Seq<Seq<char>>,
    n: nat,
    open: Option<Fence>,
)
    requires
        n <= parts.len(),
        cut_at_end(parts, open),
        chunks_cut_at_end(out, None),
    ensures
        chunks_cut_at_end(
            with_parts(out, path, parts, n),
            if n == parts.len() {
                open
            } else {
                None
            },
        ),
    decreases n,
{
    if n > 0 {
        let before = with_parts(out, path, parts, (n - 1) as nat);
        let part = parts[n - 1];
        let text = chunk_text(path, part);
        lemma_fences_with_parts(out, path, parts, (n - 1) as nat, open);
        lemma_own_text(path, part, before.len());
        lemma_left_trimmed(None, part);
        assert(left_open(None, part) == if n == parts.len() {
            open
        } else {
            None
        }) by {
            if n < parts.len() {
                assert(parts.drop_last()[n - 1] == part);
            }
        }
        if blank(text) {
            lemma_left_blank(None, trimmed(part));
        } else {
            let after = with_parts(out, path, parts, n);
            assert forall|i: int| 0 <= i < after.len() - 1 implies shut(
                own_text((#[trigger] after[i]).0),
            ) by {
                assert(after[i] == before[i]);
            }
        }
    }
}

proof fn lemma_fences_chunks(
    sections: Seq<SectionView>,
    target: nat,
    max: nat,
    open: Option<Fence>,
)
    requires
        sections_cut_at_end(sections, open),
    ensures
        chunks_cut_at_end(chunks_of_sections(sections, target, max), open),
    decreases sections.len(),
{
    if sections.len() > 0 {
        let rest = sections.drop_last();
        let last = sections.last();
        let parts = section_parts(last, target, max);
        assert(sections_cut_at_end(rest, None)) by {
            assert forall|i: int| 0 <= i < rest.len() implies shut(
                (#[trigger] rest[i]).body,
            ) by {
                assert(rest[i] == sections[i]);
            }
        }
        lemma_fences_chunks(rest, target, max, None);
        lemma_fences_section(last, target, max);
        lemma_fences_with_parts(
            chunks_of_sections(rest, target, max),
            last.path,
            parts,
            parts.len(),
            open,
        );
    }
}

/// Chunking cuts no fenced code block: behind its trail every chunk closes the blocks that it
/// opens, each with a fence of the character that opened it and at least as long, but for the last
/// chunk of a document that leaves its last block open.
pub proof fn law_no_fence_is_cut(markdown: Seq<char>, target: nat, max: nat, i: int)
    requires
        0 <= i < chunks_of(markdown, target, max).len(),
        i < chunks_of(markdown, target, max).len() - 1 || shut(markdown),
    ensures
        shut(own_text(chunks_of(markdown, target, max)[i].0)),
{
    lemma_fences_sections(markdown);
    lemma_fences_chunks(sections_of(markdown), target, max, left_open(None, markdown));
    let out = chunks_of(markdown, target, max);
    assert(shut(own_text(out[i].0)));
}

} // verus!
