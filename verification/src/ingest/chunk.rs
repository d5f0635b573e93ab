//! Structure-aware Markdown chunking.
//!
//! A document is cut into sections at its headings, and each section becomes one chunk that is
//! addressed by its heading trail (`deployment.md#Kubernetes > Production Values`). The address of
//! a section with a trail of its own does not depend on what stands in the other sections, so that
//! a document that is imported again replaces exactly the sections whose text changed. Sections
//! that share a trail are numbered.
//!
//! - A line inside a fenced code block is never a heading, and a fenced block is never cut. A fence
//!   is closed by one of its own character, at least as long.
//! - Every chunk carries its heading trail as a prefix.
//! - A section whose body is blank yields no chunk: its title travels with its descendants.
//! - A section that is too large is packed by paragraph, with the trail repeated on each part.

use vstd::prelude::*;

use crate::text;
use crate::text::{
    blank, folded, joined, lines_of, listed, trimmed, trimmed_lead, trimmed_tail, views, Class,
};

verus! {

broadcast use vstd::string::group_string_axioms;

// ── Model ────────────────────────────────────────────────────────────────────────────

/// What a chunk is: its heading trail, its text, its position in the document.
pub struct ChunkView {
    pub heading_path: Seq<Seq<char>>,
    pub text: Seq<char>,
    pub ordinal: nat,
}

/// The trail of a heading path, outermost first.
pub open spec fn trail(path: Seq<Seq<char>>) -> Seq<char> {
    joined(path, " > "@)
}

/// The level and the title of an ATX heading: one to six hashes, a space, the title, and perhaps
/// closing hashes.
pub open spec fn heading(line: Seq<char>) -> Option<(nat, Seq<char>)> {
    let t = trimmed_lead(line, Class::White);
    let rest = trimmed_lead(t, Class::Hash);
    let level = t.len() - rest.len();
    if 1 <= level <= 6 && rest.len() > 0 && rest[0] == ' ' {
        Some((level as nat, trimmed(trimmed_tail(trimmed(rest), Class::Hash))))
    } else {
        None
    }
}

/// How often `c` stands at the start of `s`.
pub open spec fn streak(s: Seq<char>, c: char) -> nat
    decreases s.len(),
{
    if s.len() > 0 && s[0] == c {
        1 + streak(s.drop_first(), c)
    } else {
        0
    }
}

/// The fence that a line draws: three backticks or tildes, or more of them, after white space.
pub open spec fn mark(line: Seq<char>) -> Option<(char, nat)> {
    let t = trimmed_lead(line, Class::White);
    if streak(t, '`') >= 3 {
        Some(('`', streak(t, '`')))
    } else if streak(t, '~') >= 3 {
        Some(('~', streak(t, '~')))
    } else {
        None
    }
}

/// A line that draws a fence.
pub open spec fn fence(line: Seq<char>) -> bool {
    mark(line) is Some
}

/// The fence that is open after a line. A block is closed by a fence of the character that opened
/// it, at least as long; any other fence within it is text.
pub open spec fn fence_after(open: Option<(char, nat)>, line: Seq<char>) -> Option<(char, nat)> {
    match (open, mark(line)) {
        (Some(o), Some(m)) => if m.0 == o.0 && m.1 >= o.1 {
            None
        } else {
            open
        },
        (None, Some(m)) => Some(m),
        (_, None) => open,
    }
}

/// A section: a heading trail and the lines beneath it.
pub struct SectionView {
    pub path: Seq<Seq<char>>,
    pub body: Seq<char>,
}

impl SectionView {
    /// A section is kept unless it is an empty preamble.
    pub open spec fn kept(self) -> bool {
        !blank(self.body) || self.path.len() > 0
    }
}

/// Where a scan over the lines of a document stands.
pub struct Scan {
    /// The sections that are closed.
    pub done: Seq<SectionView>,
    /// The open headings, outermost first: level and title.
    pub stack: Seq<(nat, Seq<char>)>,
    /// The section that is being filled.
    pub current: SectionView,
    /// The fence of the code block that the scan is inside of.
    pub open: Option<(char, nat)>,
}

/// The titles of the open headings.
pub open spec fn titles(stack: Seq<(nat, Seq<char>)>) -> Seq<Seq<char>> {
    stack.map_values(|e: (nat, Seq<char>)| e.1)
}

/// The open headings after a heading of `level` with `title`: the headings that it is not nested
/// under are closed.
pub open spec fn nested(stack: Seq<(nat, Seq<char>)>, level: nat, title: Seq<char>) -> Seq<
    (nat, Seq<char>),
> {
    stack.filter(|e: (nat, Seq<char>)| e.0 < level).push((level, title))
}

pub open spec fn kept_with(done: Seq<SectionView>, section: SectionView) -> Seq<SectionView> {
    if section.kept() {
        done.push(section)
    } else {
        done
    }
}

/// A section with one line more.
pub open spec fn with_line(section: SectionView, line: Seq<char>) -> SectionView {
    SectionView { path: section.path, body: section.body + line.push('\n') }
}

/// One line of the scan.
pub open spec fn scan_line(s: Scan, line: Seq<char>) -> Scan {
    if s.open is None && heading(line) is Some {
        let (level, title) = heading(line)->0;
        let stack = nested(s.stack, level, title);
        Scan {
            done: kept_with(s.done, s.current),
            stack,
            current: SectionView { path: titles(stack), body: seq![] },
            open: None,
        }
    } else {
        Scan { current: with_line(s.current, line), open: fence_after(s.open, line), ..s }
    }
}

pub open spec fn scan_lines(lines: Seq<Seq<char>>) -> Scan
    decreases lines.len(),
{
    if lines.len() == 0 {
        Scan {
            done: seq![],
            stack: seq![],
            current: SectionView { path: seq![], body: seq![] },
            open: None,
        }
    } else {
        scan_line(scan_lines(lines.drop_last()), lines.last())
    }
}

/// The sections of a document.
pub open spec fn sections_of(markdown: Seq<char>) -> Seq<SectionView> {
    let s = scan_lines(lines_of(markdown));
    kept_with(s.done, s.current)
}

/// Where the grouping of lines into paragraphs stands.
pub struct Grouping {
    pub done: Seq<Seq<char>>,
    pub buf: Seq<char>,
    pub open: Option<(char, nat)>,
}

/// One line of the grouping: a closing fence and a blank line outside a fence end a paragraph.
pub open spec fn group_line(g: Grouping, line: Seq<char>) -> Grouping {
    let longer = g.buf + line.push('\n');
    let open = fence_after(g.open, line);
    if g.open is Some && open is None {
        Grouping { done: g.done.push(longer), buf: seq![], open }
    } else if g.open is None && blank(line) {
        Grouping {
            done: if blank(g.buf) {
                g.done
            } else {
                g.done.push(g.buf)
            },
            buf: seq![],
            open: None,
        }
    } else {
        Grouping { buf: longer, open, ..g }
    }
}

pub open spec fn group_lines(lines: Seq<Seq<char>>) -> Grouping
    decreases lines.len(),
{
    if lines.len() == 0 {
        Grouping { done: seq![], buf: seq![], open: None }
    } else {
        group_line(group_lines(lines.drop_last()), lines.last())
    }
}

/// The paragraphs of a text: separated by blank lines, a fenced block being indivisible.
pub open spec fn paragraphs_of(body: Seq<char>) -> Seq<Seq<char>> {
    let g = group_lines(lines_of(body));
    if blank(g.buf) {
        g.done
    } else {
        g.done.push(g.buf)
    }
}

/// Where the packing of paragraphs into parts stands.
pub struct Packing {
    pub done: Seq<Seq<char>>,
    pub current: Seq<char>,
}

/// One paragraph of the packing: it opens a new part where it would make the current one exceed
/// `max` characters.
pub open spec fn pack_one(p: Packing, paragraph: Seq<char>, max: nat) -> Packing {
    if p.current.len() > 0 && p.current.len() + paragraph.len() + 1 > max {
        Packing { done: p.done.push(p.current), current: paragraph.push('\n') }
    } else {
        Packing { done: p.done, current: p.current + paragraph.push('\n') }
    }
}

pub open spec fn pack_all(paragraphs: Seq<Seq<char>>, max: nat) -> Packing
    decreases paragraphs.len(),
{
    if paragraphs.len() == 0 {
        Packing { done: seq![], current: seq![] }
    } else {
        pack_one(pack_all(paragraphs.drop_last(), max), paragraphs.last(), max)
    }
}

/// The parts that a body is packed into.
pub open spec fn parts_of(body: Seq<char>, max: nat) -> Seq<Seq<char>> {
    let p = pack_all(paragraphs_of(body), max);
    if blank(p.current) {
        p.done
    } else {
        p.done.push(p.current)
    }
}

/// The parts of one section: its whole body where trail and body fit into `max` characters, and
/// groups of paragraphs of up to `target` characters otherwise.
pub open spec fn section_parts(section: SectionView, target: nat, max: nat) -> Seq<Seq<char>> {
    let body = trimmed(section.body);
    if body.len() == 0 {
        seq![]
    } else if trail(section.path).len() + body.len() <= max {
        seq![body]
    } else {
        parts_of(body, target)
    }
}

/// The text of one part under its trail.
pub open spec fn chunk_text(path: Seq<Seq<char>>, part: Seq<char>) -> Seq<char> {
    let t = trail(path);
    if t.len() == 0 {
        trimmed(part)
    } else {
        t + "\n\n"@ + trimmed(part)
    }
}

/// The address of a chunk in the document `doc`: the trail behind `#`; for a chunk without a
/// usable trail the document itself (at the start) or its position; a part after the first gets
/// its number behind `~`.
pub open spec fn subject_of(c: ChunkView, doc: Seq<char>, part: Option<nat>) -> Seq<char> {
    let t = trail(c.heading_path);
    let base = if blank(t) {
        if c.ordinal == 0 {
            doc
        } else {
            doc + "#§"@ + text::decimal_of(c.ordinal)
        }
    } else {
        doc + "#"@ + t
    };
    match part {
        Some(n) if n > 0 => base + "~"@ + text::decimal_of(n),
        _ => base,
    }
}

/// The address of a part within its document, without regard to case and white space.
pub open spec fn key(c: ChunkView, part: nat) -> Seq<char> {
    folded(subject_of(c, seq![], Some(part)))
}

pub open spec fn keys(chunks: Seq<(ChunkView, nat)>) -> Seq<Seq<char>> {
    chunks.map_values(|e: (ChunkView, nat)| key(e.0, e.1))
}

/// The first of `tries` numbers from `n` on that gives a chunk an address that is not taken, or
/// the one behind them.
pub open spec fn first_free(taken: Seq<Seq<char>>, c: ChunkView, n: nat, tries: nat) -> nat
    decreases tries,
{
    if tries == 0 || !listed(taken, key(c, n)) {
        n
    } else {
        first_free(taken, c, n + 1, (tries - 1) as nat)
    }
}

/// The number of a part: the wanted one, or the first that is free where an earlier chunk of the
/// document has its address.
pub open spec fn number(taken: Seq<Seq<char>>, c: ChunkView, wanted: nat) -> nat {
    if listed(taken, key(c, wanted)) {
        first_free(taken, c, 0, taken.len())
    } else {
        wanted
    }
}

/// The chunks so far, followed by those of the first `n` parts of a section.
pub open spec fn with_parts(
    out: Seq<(ChunkView, nat)>,
    path: Seq<Seq<char>>,
    parts: Seq<Seq<char>>,
    n: nat,
) -> Seq<(ChunkView, nat)>
    decreases n,
{
    if n == 0 {
        out
    } else {
        let before = with_parts(out, path, parts, (n - 1) as nat);
        let text = chunk_text(path, parts[n - 1]);
        if blank(text) {
            before
        } else {
            let c = ChunkView { heading_path: path, text, ordinal: before.len() };
            before.push((c, number(keys(before), c, (n - 1) as nat)))
        }
    }
}

pub open spec fn chunks_of_sections(
    sections: Seq<SectionView>,
    target: nat,
    max: nat,
) -> Seq<(ChunkView, nat)>
    decreases sections.len(),
{
    if sections.len() == 0 {
        seq![]
    } else {
        let section = sections.last();
        let parts = section_parts(section, target, max);
        with_parts(
            chunks_of_sections(sections.drop_last(), target, max),
            section.path,
            parts,
            parts.len(),
        )
    }
}

/// The chunks of a document, each with its number: the index of its part within its section, or
/// the first free one where a chunk before it has that address.
pub open spec fn chunks_of(markdown: Seq<char>, target: nat, max: nat) -> Seq<(ChunkView, nat)> {
    chunks_of_sections(sections_of(markdown), target, max)
}

// ── Code ─────────────────────────────────────────────────────────────────────────────

/// One retrievable piece of a document.
#[derive(Debug, Clone, PartialEq, Eq)]
pub struct Chunk {
    /// Heading trail, outermost first. Empty for content before any heading.
    pub heading_path: Vec<String>,
    /// The body, prefixed with the heading trail.
    pub text: String,
    /// Position within the document, from 0.
    pub ordinal: usize,
}

impl View for Chunk {
    type V = ChunkView;

    open spec fn view(&self) -> ChunkView {
        ChunkView {
            heading_path: views(self.heading_path@),
            text: self.text@,
            ordinal: self.ordinal as nat,
        }
    }
}

/// The view of the chunks of a document.
pub open spec fn chunk_views(v: Seq<(Chunk, usize)>) -> Seq<(ChunkView, nat)> {
    v.map_values(|e: (Chunk, usize)| (e.0@, e.1 as nat))
}

impl Chunk {
    /// The stable address of this chunk within its document: `path#Heading > Sub-heading`.
    pub fn subject(&self, doc_path: &str, part: Option<usize>) -> (r: String)
        ensures
            r@ == subject_of(
                self@,
                doc_path@,
                match part {
                    Some(n) => Some(n as nat),
                    None => None,
                },
            ),
    {
        let trail = text::join(&self.heading_path, " > ");
        let trail_chars = text::chars(trail.as_str());
        let mut base = doc_path.to_owned();
        if text::is_blank(&trail_chars) {
            if self.ordinal != 0 {
                base.append("#§");
                base.append(text::decimal(self.ordinal as u64).as_str());
            }
        } else {
            base.append("#");
            base.append(trail.as_str());
        }
        if let Some(n) = part {
            if n > 0 {
                base.append("~");
                base.append(text::decimal(n as u64).as_str());
            }
        }
        base
    }
}

/// Sizing knobs, in characters of text.
#[derive(Debug, Clone, Copy)]
pub struct ChunkOptions {
    /// Preferred size when a section has to be split.
    pub target_chars: usize,
    /// A section larger than this is packed into several chunks.
    pub max_chars: usize,
}

impl Default for ChunkOptions {
    fn default() -> (r: ChunkOptions)
        ensures
            r.target_chars == 1_500,
            r.max_chars == 3_000,
    {
        ChunkOptions { target_chars: 1_500, max_chars: 3_000 }
    }
}

/// The level and title of a heading line, or `None` for body text.
pub fn heading_of(line: &[char]) -> (r: Option<(usize, String)>)
    ensures
        match r {
            Some((level, title)) => heading(line@) == Some((level as nat, title@)),
            None => heading(line@) is None,
        },
{
    let t = text::trim_lead(line, Class::White);
    let rest = text::trim_lead(t, Class::Hash);
    proof {
        lemma_trimmed_lead_len(t@, Class::Hash);
    }
    let level: usize = t.len() - rest.len();
    if level < 1 || level > 6 || rest.len() == 0 || rest[0] != ' ' {
        return None;
    }
    let title = text::trim(text::trim_tail(text::trim(rest), Class::Hash));
    Some((level, text::string(title)))
}

proof fn lemma_trimmed_lead_len(s: Seq<char>, k: Class)
    ensures
        trimmed_lead(s, k).len() <= s.len(),
    decreases s.len(),
{
    if s.len() > 0 && k.has(s[0]) {
        lemma_trimmed_lead_len(s.drop_first(), k);
    }
}

/// Does this line open or close a fenced code block?
pub fn is_fence(line: &[char]) -> (r: bool)
    ensures
        r == fence(line@),
{
    fence_of(line).is_some()
}

/// The view of a fence.
pub open spec fn fence_view(o: Option<(char, usize)>) -> Option<(char, nat)> {
    match o {
        Some(f) => Some((f.0, f.1 as nat)),
        None => None,
    }
}

fn count_streak(s: &[char], c: char) -> (r: usize)
    ensures
        r == streak(s@, c),
{
    let mut i: usize = 0;
    proof {
        assert(s@.skip(0) =~= s@);
    }
    while i < s.len() && s[i] == c
        invariant
            i <= s.len(),
            i + streak(s@.skip(i as int), c) == streak(s@, c),
        decreases s.len() - i,
    {
        proof {
            assert(s@.skip(i as int).drop_first() =~= s@.skip(i + 1));
        }
        i += 1;
    }
    i
}

/// The fence that a line draws: its character and its length.
pub fn fence_of(line: &[char]) -> (r: Option<(char, usize)>)
    ensures
        fence_view(r) == mark(line@),
{
    let t = text::trim_lead(line, Class::White);
    let ticks: usize = count_streak(t, '`');
    if ticks >= 3 {
        return Some(('`', ticks));
    }
    let tildes: usize = count_streak(t, '~');
    if tildes >= 3 {
        return Some(('~', tildes));
    }
    None
}

/// The fence that is open after a line.
fn next_fence(open: Option<(char, usize)>, line: &[char]) -> (r: Option<(char, usize)>)
    ensures
        fence_view(r) == fence_after(fence_view(open), line@),
{
    match (open, fence_of(line)) {
        (Some(o), Some(m)) => if m.0 == o.0 && m.1 >= o.1 {
            None
        } else {
            open
        },
        (None, Some(m)) => Some(m),
        (_, None) => open,
    }
}

/// A document section: a heading trail and the raw lines beneath it.
pub struct Section {
    pub heading_path: Vec<String>,
    pub body: Vec<char>,
}

impl View for Section {
    type V = SectionView;

    open spec fn view(&self) -> SectionView {
        SectionView { path: views(self.heading_path@), body: self.body@ }
    }
}

pub open spec fn section_views(v: Seq<Section>) -> Seq<SectionView> {
    v.map_values(|s: Section| s@)
}

spec fn stack_view(v: Seq<(usize, String)>) -> Seq<(nat, Seq<char>)> {
    v.map_values(|e: (usize, String)| (e.0 as nat, e.1@))
}

/// Appends a line and its end to a buffer.
fn push_line(buf: &mut Vec<char>, line: &[char])
    ensures
        final(buf)@ == old(buf)@ + line@.push('\n'),
{
    let ghost start = buf@;
    text::extend(buf, line);
    buf.push('\n');
    proof {
        assert((start + line@).push('\n') =~= start + line@.push('\n'));
    }
}

/// Opens a heading: closes those that it is not nested under, and returns the new trail.
fn open_heading(stack: &mut Vec<(usize, String)>, level: usize, title: String) -> (r: Vec<String>)
    ensures
        stack_view(final(stack)@) == nested(stack_view(old(stack)@), level as nat, title@),
        views(r@) == titles(stack_view(final(stack)@)),
{
    let ghost start = stack_view(stack@);
    let ghost keep = |e: (nat, Seq<char>)| e.0 < level as nat;
    let mut kept: Vec<(usize, String)> = Vec::new();
    let mut path: Vec<String> = Vec::new();
    let mut i: usize = 0;
    proof {
        crate::seqs::lemma_filter_none(start, keep);
    }
    while i < stack.len()
        invariant
            i <= stack.len(),
            start == stack_view(stack@),
            keep == (|e: (nat, Seq<char>)| e.0 < level as nat),
            stack_view(kept@) == start.take(i as int).filter(keep),
            views(path@) == titles(stack_view(kept@)),
        decreases stack.len() - i,
    {
        let ghost kept_before = stack_view(kept@);
        let ghost path_before = views(path@);
        if stack[i].0 < level {
            kept.push((stack[i].0, stack[i].1.clone()));
            path.push(stack[i].1.clone());
        }
        i += 1;
        proof {
            crate::seqs::lemma_filter_take(start, keep, i - 1);
            if keep(start[i - 1]) {
                assert(stack_view(kept@) =~= kept_before.push(start[i - 1]));
                assert(views(path@) =~= path_before.push(start[i - 1].1));
                assert(titles(kept_before.push(start[i - 1])) =~= titles(kept_before).push(
                    start[i - 1].1,
                ));
            }
        }
    }
    proof {
        assert(start.take(start.len() as int) =~= start);
    }
    let ghost kept_before = stack_view(kept@);
    let ghost path_before = views(path@);
    path.push(title.clone());
    kept.push((level, title));
    proof {
        assert(stack_view(kept@) =~= kept_before.push((level as nat, title@)));
        assert(views(path@) =~= path_before.push(title@));
        assert(titles(kept_before.push((level as nat, title@))) =~= titles(kept_before).push(
            title@,
        ));
    }
    *stack = kept;
    path
}

/// Closes a section: it is kept unless it is an empty preamble.
fn close_section(sections: &mut Vec<Section>, current: Section)
    ensures
        section_views(final(sections)@) == kept_with(section_views(old(sections)@), current@),
{
    let ghost before = section_views(sections@);
    if !text::is_blank(&current.body) || current.heading_path.len() > 0 {
        sections.push(current);
        proof {
            assert(section_views(sections@) =~= before.push(current@));
        }
    }
}

/// Splits `markdown` into sections at its headings, ignoring those inside fenced code.
pub fn split_sections(markdown: &[char]) -> (r: Vec<Section>)
    ensures
        section_views(r@) == sections_of(markdown@),
{
    let lines = text::lines(markdown);
    let mut sections: Vec<Section> = Vec::new();
    let mut stack: Vec<(usize, String)> = Vec::new();
    let mut current = Section { heading_path: Vec::new(), body: Vec::new() };
    let mut open: Option<(char, usize)> = None;
    let ghost all = lines_of(markdown@);
    proof {
        assert(section_views(sections@) =~= seq![]);
        assert(stack_view(stack@) =~= seq![]);
        assert(views(current.heading_path@) =~= seq![]);
        assert(all.take(0) =~= seq![]);
    }
    let mut i: usize = 0;
    while i < lines.len()
        invariant
            i <= lines.len(),
            text::slice_views(lines@) == all,
            ({
                let s = scan_lines(all.take(i as int));
                &&& s.done == section_views(sections@)
                &&& s.stack == stack_view(stack@)
                &&& s.current == current@
                &&& s.open == fence_view(open)
            }),
        decreases lines.len() - i,
    {
        let line = lines[i];
        i += 1;
        proof {
            assert(line@ == all[i - 1]);
            assert(all.take(i as int).drop_last() =~= all.take(i - 1));
            assert(all.take(i as int).last() == line@);
        }
        if open.is_none() {
            if let Some((level, title)) = heading_of(line) {
                let path = open_heading(&mut stack, level, title);
                let closed = current;
                current = Section { heading_path: path, body: Vec::new() };
                close_section(&mut sections, closed);
                continue ;
            }
        }
        open = next_fence(open, line);
        push_line(&mut current.body, line);
    }
    proof {
        assert(all.take(all.len() as int) =~= all);
    }
    close_section(&mut sections, current);
    sections
}

/// The paragraphs of `body`, fenced blocks kept whole.
fn paragraphs(body: &[char]) -> (r: Vec<String>)
    ensures
        views(r@) == paragraphs_of(body@),
{
    let lines = text::lines(body);
    let mut done: Vec<String> = Vec::new();
    let mut buf: Vec<char> = Vec::new();
    let mut open: Option<(char, usize)> = None;
    let ghost all = lines_of(body@);
    proof {
        assert(views(done@) =~= seq![]);
        assert(buf@ =~= seq![]);
        assert(all.take(0) =~= seq![]);
    }
    let mut i: usize = 0;
    while i < lines.len()
        invariant
            i <= lines.len(),
            text::slice_views(lines@) == all,
            ({
                let g = group_lines(all.take(i as int));
                &&& g.done == views(done@)
                &&& g.buf == buf@
                &&& g.open == fence_view(open)
            }),
        decreases lines.len() - i,
    {
        let line = lines[i];
        let ghost before = done@;
        i += 1;
        proof {
            assert(line@ == all[i - 1]);
            assert(all.take(i as int).drop_last() =~= all.take(i - 1));
            assert(all.take(i as int).last() == line@);
        }
        let next = next_fence(open, line);
        if open.is_some() && next.is_none() {
            open = next;
            push_line(&mut buf, line);
            done.push(text::string(&buf));
            proof {
                assert(views(done@) =~= views(before).push(buf@));
            }
            buf = Vec::new();
            proof {
                assert(buf@ =~= seq![]);
            }
            continue ;
        }
        if open.is_none() && text::is_blank(line) {
            if !text::is_blank(&buf) {
                done.push(text::string(&buf));
                proof {
                    assert(views(done@) =~= views(before).push(buf@));
                }
            }
            buf = Vec::new();
            proof {
                assert(buf@ =~= seq![]);
            }
            continue ;
        }
        open = next;
        push_line(&mut buf, line);
    }
    proof {
        assert(all.take(all.len() as int) =~= all);
    }
    let ghost before = done@;
    if !text::is_blank(&buf) {
        done.push(text::string(&buf));
        proof {
            assert(views(done@) =~= views(before).push(buf@));
        }
    }
    done
}

/// Groups the paragraphs of `body` into parts of up to `max_chars` characters. A paragraph is kept
/// whole however long it is, and so is a fenced block.
pub fn pack_paragraphs(body: &[char], max_chars: usize) -> (r: Vec<String>)
    ensures
        views(r@) == parts_of(body@, max_chars as nat),
{
    let paragraphs = paragraphs(body);
    let mut out: Vec<String> = Vec::new();
    let mut current: Vec<char> = Vec::new();
    let ghost all = paragraphs_of(body@);
    let ghost max = max_chars as nat;
    proof {
        assert(views(out@) =~= seq![]);
        assert(current@ =~= seq![]);
        assert(all.take(0) =~= seq![]);
    }
    let mut i: usize = 0;
    while i < paragraphs.len()
        invariant
            i <= paragraphs.len(),
            views(paragraphs@) == all,
            max == max_chars,
            ({
                let p = pack_all(all.take(i as int), max);
                &&& p.done == views(out@)
                &&& p.current == current@
            }),
        decreases paragraphs.len() - i,
    {
        let p = text::chars(paragraphs[i].as_str());
        let ghost before = out@;
        i += 1;
        proof {
            assert(p@ == all[i - 1]);
            assert(all.take(i as int).drop_last() =~= all.take(i - 1));
            assert(all.take(i as int).last() == p@);
        }
        if current.len() > 0 && current.len() as u128 + p.len() as u128 + 1 > max_chars as u128 {
            out.push(text::string(&current));
            proof {
                assert(views(out@) =~= views(before).push(current@));
            }
            current = Vec::new();
            push_line(&mut current, &p);
            proof {
                assert(current@ =~= p@.push('\n'));
            }
        } else {
            push_line(&mut current, &p);
        }
    }
    proof {
        assert(all.take(all.len() as int) =~= all);
    }
    let ghost before = out@;
    if !text::is_blank(&current) {
        out.push(text::string(&current));
        proof {
            assert(views(out@) =~= views(before).push(current@));
        }
    }
    out
}

/// The parts of one section.
fn parts_of_section(section: &Section, trail_text: &str, opts: &ChunkOptions) -> (r: Vec<String>)
    requires
        trail_text@ == trail(section@.path),
    ensures
        views(r@) == section_parts(section@, opts.target_chars as nat, opts.max_chars as nat),
{
    let body = text::trim(&section.body);
    if body.len() == 0 {
        let none: Vec<String> = Vec::new();
        proof {
            assert(views(none@) =~= seq![]);
        }
        return none;
    }
    let trail_len: usize = text::chars(trail_text).len();
    if trail_len as u128 + body.len() as u128 <= opts.max_chars as u128 {
        let mut whole: Vec<String> = Vec::new();
        whole.push(text::string(body));
        proof {
            assert(views(whole@) =~= seq![body@]);
        }
        whole
    } else {
        pack_paragraphs(body, opts.target_chars)
    }
}

/// The text of one part under its trail.
fn text_of_part(trail_text: &str, part: &str, Ghost(path): Ghost<Seq<Seq<char>>>) -> (r: String)
    requires
        trail_text@ == trail(path),
    ensures
        r@ == chunk_text(path, part@),
{
    let body = text::trim_str(part);
    let trail_chars = text::chars(trail_text);
    if trail_chars.len() == 0 {
        body
    } else {
        let mut out = trail_text.to_owned();
        out.append("\n\n");
        out.append(body.as_str());
        out
    }
}

/// The address of a part within its document, without regard to case and white space.
fn key_of(chunk: &Chunk, part: usize) -> (r: String)
    ensures
        r@ == key(chunk@, part as nat),
{
    let address = chunk.subject("", Some(part));
    proof {
        reveal_strlit("");
        assert(""@ =~= seq![]);
    }
    text::fold(&text::chars(address.as_str()))
}

/// The number of a part, with its address.
fn free_number(taken: &Vec<String>, chunk: &Chunk, wanted: usize) -> (r: (usize, String))
    ensures
        r.0 == number(views(taken@), chunk@, wanted as nat),
        r.1@ == key(chunk@, r.0 as nat),
{
    let address = key_of(chunk, wanted);
    if !text::one_of(taken, address.as_str()) {
        return (wanted, address);
    }
    let ghost all = views(taken@);
    let mut n: usize = 0;
    let mut address = key_of(chunk, 0);
    while n < taken.len() && text::one_of(taken, address.as_str())
        invariant
            n <= taken.len(),
            all == views(taken@),
            address@ == key(chunk@, n as nat),
            first_free(all, chunk@, n as nat, (taken.len() - n) as nat) == first_free(
                all,
                chunk@,
                0,
                taken@.len(),
            ),
        decreases taken.len() - n,
    {
        n += 1;
        address = key_of(chunk, n);
    }
    (n, address)
}

/// Chunks a Markdown document into retrievable sections with stable addresses.
///
/// Each chunk comes with its number, which is not zero only where the section had to be split for
/// size, or where an earlier chunk has the same address. Hand both to [`Chunk::subject`]: no two
/// chunks of a document come out with the same subject, whatever their case and white space.
pub fn chunk_markdown(markdown: &str, opts: &ChunkOptions) -> (r: Vec<(Chunk, usize)>)
    ensures
        chunk_views(r@) == chunks_of(
            markdown@,
            opts.target_chars as nat,
            opts.max_chars as nat,
        ),
{
    let source = text::chars(markdown);
    let sections = split_sections(&source);
    let ghost all = sections_of(markdown@);
    let ghost target = opts.target_chars as nat;
    let ghost max = opts.max_chars as nat;
    let mut out: Vec<(Chunk, usize)> = Vec::new();
    let mut taken: Vec<String> = Vec::new();
    proof {
        assert(chunk_views(out@) =~= seq![]);
        assert(views(taken@) =~= keys(chunk_views(out@)));
        assert(all.take(0) =~= seq![]);
    }
    let mut i: usize = 0;
    while i < sections.len()
        invariant
            i <= sections.len(),
            section_views(sections@) == all,
            target == opts.target_chars,
            max == opts.max_chars,
            chunk_views(out@) == chunks_of_sections(all.take(i as int), target, max),
            views(taken@) == keys(chunk_views(out@)),
        decreases sections.len() - i,
    {
        let section = &sections[i];
        let trail_text = text::join(&section.heading_path, " > ");
        let parts = parts_of_section(section, trail_text.as_str(), opts);
        let ghost start = chunk_views(out@);
        let ghost path = section@.path;
        let mut j: usize = 0;
        while j < parts.len()
            invariant
                j <= parts.len(),
                path == section@.path,
                trail_text@ == trail(path),
                chunk_views(out@) == with_parts(start, path, views(parts@), j as nat),
                views(taken@) == keys(chunk_views(out@)),
            decreases parts.len() - j,
        {
            let text = text_of_part(trail_text.as_str(), parts[j].as_str(), Ghost(path));
            let ghost before = out@;
            let ghost taken_before = taken@;
            let cs = text::chars(text.as_str());
            if !text::is_blank(&cs) {
                let ordinal: usize = out.len();
                let chunk = Chunk {
                    heading_path: text::copy_strings(&section.heading_path),
                    text,
                    ordinal,
                };
                let (n, address) = free_number(&taken, &chunk, j);
                taken.push(address);
                out.push((chunk, n));
                proof {
                    assert(chunk_views(out@) =~= chunk_views(before).push((chunk@, n as nat)));
                    assert(views(taken@) =~= views(taken_before).push(address@));
                    assert(keys(chunk_views(out@)) =~= keys(chunk_views(before)).push(address@));
                }
            }
            j += 1;
        }
        i += 1;
        proof {
            assert(all.take(i as int).drop_last() =~= all.take(i - 1));
            assert(all.take(i as int).last() == section@);
        }
    }
    proof {
        assert(all.take(all.len() as int) =~= all);
    }
    out
}

} // verus!
