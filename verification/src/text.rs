//! Text as sequences of characters: the string operations that the rest of the crate is built on.
//!
//! Specifications speak of `Seq<char>`. Executable code scans `&[char]` and builds `String`.

use vstd::prelude::*;

verus! {

broadcast use vstd::string::group_string_axioms;

// ── Characters ───────────────────────────────────────────────────────────────────────

/// Unicode's `White_Space` property.
pub open spec fn white(c: char) -> bool {
    ||| '\u{9}' <= c <= '\u{d}'
    ||| c == ' '
    ||| c == '\u{85}'
    ||| c == '\u{a0}'
    ||| c == '\u{1680}'
    ||| '\u{2000}' <= c <= '\u{200a}'
    ||| c == '\u{2028}'
    ||| c == '\u{2029}'
    ||| c == '\u{202f}'
    ||| c == '\u{205f}'
    ||| c == '\u{3000}'
}

/// Is `c` white space?
pub fn is_white(c: char) -> (r: bool)
    ensures
        r == white(c),
{
    ('\u{9}' <= c && c <= '\u{d}') || c == ' ' || c == '\u{85}' || c == '\u{a0}' || c == '\u{1680}'
        || ('\u{2000}' <= c && c <= '\u{200a}') || c == '\u{2028}' || c == '\u{2029}' || c
        == '\u{202f}' || c == '\u{205f}' || c == '\u{3000}'
}

/// A letter or a digit of ASCII.
pub open spec fn ascii_alnum(c: char) -> bool {
    'a' <= c <= 'z' || 'A' <= c <= 'Z' || '0' <= c <= '9'
}

/// What `char::is_alphanumeric` answers beyond ASCII: Unicode's `Alphabetic` or a numeric general
/// category.
pub uninterp spec fn alphanumeric(c: char) -> bool;

/// A letter or a digit.
pub open spec fn alnum(c: char) -> bool {
    if c <= '\u{7f}' {
        ascii_alnum(c)
    } else {
        alphanumeric(c)
    }
}

/// `char::is_alphanumeric`, whose answer is a table of the Unicode standard. On ASCII it is the
/// letters and the digits.
pub assume_specification[ char::is_alphanumeric ](c: char) -> (r: bool)
    ensures
        c <= '\u{7f}' ==> r == ascii_alnum(c),
        c > '\u{7f}' ==> r == alphanumeric(c),
;

// ── Strings and character sequences ──────────────────────────────────────────────────

/// `String::push` appends one character.
pub assume_specification[ String::push ](s: &mut String, c: char)
    ensures
        final(s)@ == old(s)@.push(c),
;

/// The characters of a string.
pub fn chars(s: &str) -> (r: Vec<char>)
    ensures
        r@ == s@,
{
    let mut out: Vec<char> = Vec::new();
    for c in it: s.chars()
        invariant
            out@ == it.seq().take(it.index() as int),
            it.seq() == s@,
    {
        out.push(c);
        proof {
            assert(it.seq().take(it.index() + 1) =~= it.seq().take(it.index() as int).push(c));
        }
    }
    proof {
        assert(s@.take(s@.len() as int) =~= s@);
    }
    out
}

/// The string of the characters `cs`.
pub fn string(cs: &[char]) -> (r: String)
    ensures
        r@ == cs@,
{
    let mut out = String::new();
    let mut i: usize = 0;
    while i < cs.len()
        invariant
            i <= cs.len(),
            out@ == cs@.take(i as int),
        decreases cs.len() - i,
    {
        out.push(cs[i]);
        i += 1;
        proof {
            assert(cs@.take(i as int) =~= cs@.take(i - 1).push(cs@[i - 1]));
        }
    }
    proof {
        assert(cs@.take(cs@.len() as int) =~= cs@);
    }
    out
}


/// Appends the characters `cs` to a list of characters.
pub fn extend(v: &mut Vec<char>, cs: &[char])
    ensures
        final(v)@ == old(v)@ + cs@,
{
    let ghost start = v@;
    let mut i: usize = 0;
    proof {
        assert(start + cs@.take(0) =~= start);
    }
    while i < cs.len()
        invariant
            i <= cs.len(),
            v@ == start + cs@.take(i as int),
        decreases cs.len() - i,
    {
        v.push(cs[i]);
        i += 1;
        proof {
            assert(start + cs@.take(i as int) =~= (start + cs@.take(i - 1)).push(cs@[i - 1]));
        }
    }
    proof {
        assert(cs@.take(cs@.len() as int) =~= cs@);
    }
}

/// Do two strings hold the same characters?
pub fn same(a: &str, b: &str) -> (r: bool)
    ensures
        r == (a@ == b@),
{
    a.to_owned() == b.to_owned()
}

/// The views of a list of strings.
pub open spec fn views(v: Seq<String>) -> Seq<Seq<char>> {
    v.map_values(|s: String| s@)
}

/// The views of a list of character slices.
pub open spec fn slice_views(v: Seq<&[char]>) -> Seq<Seq<char>> {
    v.map_values(|s: &[char]| s@)
}

/// The view of an optional string.
pub open spec fn opt_view(o: Option<String>) -> Option<Seq<char>> {
    match o {
        Some(s) => Some(s@),
        None => None,
    }
}

/// The view of an optional borrowed string.
pub open spec fn opt_str_view(o: Option<&str>) -> Option<Seq<char>> {
    match o {
        Some(s) => Some(s@),
        None => None,
    }
}

/// A copy of a list of strings.
pub fn copy_strings(v: &Vec<String>) -> (r: Vec<String>)
    ensures
        views(r@) == views(v@),
{
    let mut out: Vec<String> = Vec::new();
    let mut i: usize = 0;
    while i < v.len()
        invariant
            i <= v.len(),
            views(out@) == views(v@).take(i as int),
        decreases v.len() - i,
    {
        let ghost before = out@;
        out.push(v[i].clone());
        i += 1;
        proof {
            assert(views(out@) =~= views(before).push(v@[i - 1]@));
            assert(views(v@).take(i as int) =~= views(v@).take(i - 1).push(v@[i - 1]@));
        }
    }
    proof {
        assert(views(v@).take(v@.len() as int) =~= views(v@));
    }
    out
}

// ── Trimming ─────────────────────────────────────────────────────────────────────────

/// The classes of characters that are trimmed off the ends of a text.
pub enum Class {
    White,
    Hash,
    Dash,
    Dot,
    /// `.`, `-` and `_`: part of an identifier inside a word, noise at its edges.
    Edge,
}

impl Class {
    pub open spec fn has(self, c: char) -> bool {
        match self {
            Class::White => white(c),
            Class::Hash => c == '#',
            Class::Dash => c == '-',
            Class::Dot => c == '.',
            Class::Edge => c == '.' || c == '-' || c == '_',
        }
    }

    fn holds(&self, c: char) -> (r: bool)
        ensures
            r == self.has(c),
    {
        match self {
            Class::White => is_white(c),
            Class::Hash => c == '#',
            Class::Dash => c == '-',
            Class::Dot => c == '.',
            Class::Edge => c == '.' || c == '-' || c == '_',
        }
    }
}

/// `s` without its leading characters of class `k`.
pub open spec fn trimmed_lead(s: Seq<char>, k: Class) -> Seq<char>
    decreases s.len(),
{
    if s.len() > 0 && k.has(s[0]) {
        trimmed_lead(s.drop_first(), k)
    } else {
        s
    }
}

/// `s` without its trailing characters of class `k`.
pub open spec fn trimmed_tail(s: Seq<char>, k: Class) -> Seq<char>
    decreases s.len(),
{
    if s.len() > 0 && k.has(s.last()) {
        trimmed_tail(s.drop_last(), k)
    } else {
        s
    }
}

/// `s` without leading and trailing characters of class `k`.
pub open spec fn trimmed_both(s: Seq<char>, k: Class) -> Seq<char> {
    trimmed_tail(trimmed_lead(s, k), k)
}

/// `s` without leading and trailing white space.
pub open spec fn trimmed(s: Seq<char>) -> Seq<char> {
    trimmed_both(s, Class::White)
}

/// Does `s` hold nothing but white space?
pub open spec fn blank(s: Seq<char>) -> bool {
    forall|i: int| 0 <= i < s.len() ==> white(#[trigger] s[i])
}

pub fn trim_lead(s: &[char], k: Class) -> (r: &[char])
    ensures
        r@ == trimmed_lead(s@, k),
{
    let mut i: usize = 0;
    proof {
        assert(s@.skip(0) =~= s@);
    }
    while i < s.len() && k.holds(s[i])
        invariant
            i <= s.len(),
            trimmed_lead(s@.skip(i as int), k) == trimmed_lead(s@, k),
        decreases s.len() - i,
    {
        proof {
            assert(s@.skip(i as int).drop_first() =~= s@.skip(i + 1));
        }
        i += 1;
    }
    proof {
        assert(s@.subrange(i as int, s@.len() as int) =~= s@.skip(i as int));
    }
    &s[i..s.len()]
}

pub fn trim_tail(s: &[char], k: Class) -> (r: &[char])
    ensures
        r@ == trimmed_tail(s@, k),
{
    let mut n: usize = s.len();
    proof {
        assert(s@.take(n as int) =~= s@);
    }
    while n > 0 && k.holds(s[n - 1])
        invariant
            n <= s.len(),
            trimmed_tail(s@.take(n as int), k) == trimmed_tail(s@, k),
        decreases n,
    {
        proof {
            assert(s@.take(n as int).drop_last() =~= s@.take(n - 1));
        }
        n -= 1;
    }
    proof {
        assert(s@.subrange(0, n as int) =~= s@.take(n as int));
    }
    &s[0..n]
}

/// `str::trim` on characters.
pub fn trim(s: &[char]) -> (r: &[char])
    ensures
        r@ == trimmed(s@),
{
    trim_tail(trim_lead(s, Class::White), Class::White)
}

/// The trimmed text of a string.
pub fn trim_str(s: &str) -> (r: String)
    ensures
        r@ == trimmed(s@),
{
    let cs = chars(s);
    string(trim(&cs))
}

pub fn is_blank(s: &[char]) -> (r: bool)
    ensures
        r == blank(s@),
{
    let mut i: usize = 0;
    while i < s.len()
        invariant
            i <= s.len(),
            forall|j: int| 0 <= j < i ==> white(#[trigger] s@[j]),
        decreases s.len() - i,
    {
        if !is_white(s[i]) {
            proof {
                assert(!white(s@[i as int]));
            }
            return false;
        }
        i += 1;
    }
    true
}

/// Nothing is left of a text after trimming exactly when it is blank.
pub proof fn lemma_trimmed_empty(s: Seq<char>)
    ensures
        trimmed(s).len() == 0 <==> blank(s),
{
    lemma_trimmed_lead_blank(s);
    lemma_trimmed_tail_blank(trimmed_lead(s, Class::White));
}

proof fn lemma_trimmed_lead_blank(s: Seq<char>)
    ensures
        blank(trimmed_lead(s, Class::White)) <==> blank(s),
    decreases s.len(),
{
    if s.len() > 0 && white(s[0]) {
        lemma_trimmed_lead_blank(s.drop_first());
        assert forall|i: int| blank(s.drop_first()) && 0 <= i < s.len() implies white(
            #[trigger] s[i],
        ) by {
            if i > 0 {
                assert(s.drop_first()[i - 1] == s[i]);
            }
        }
        assert forall|i: int| blank(s) && 0 <= i < s.drop_first().len() implies white(
            #[trigger] s.drop_first()[i],
        ) by {
            assert(s[i + 1] == s.drop_first()[i]);
        }
    }
}

proof fn lemma_trimmed_tail_blank(s: Seq<char>)
    ensures
        trimmed_tail(s, Class::White).len() == 0 <==> blank(s),
    decreases s.len(),
{
    if s.len() > 0 && white(s.last()) {
        lemma_trimmed_tail_blank(s.drop_last());
        assert forall|i: int| blank(s.drop_last()) && 0 <= i < s.len() implies white(
            #[trigger] s[i],
        ) by {
            if i < s.len() - 1 {
                assert(s.drop_last()[i] == s[i]);
            }
        }
        assert forall|i: int| blank(s) && 0 <= i < s.drop_last().len() implies white(
            #[trigger] s.drop_last()[i],
        ) by {
            assert(s[i] == s.drop_last()[i]);
        }
    } else if s.len() > 0 {
        assert(!white(s[s.len() - 1]));
    }
}

// ── Searching and splitting ──────────────────────────────────────────────────────────

/// The index of the first `c` in `s`, or the length of `s` where there is none.
pub open spec fn find(s: Seq<char>, c: char) -> int
    decreases s.len(),
{
    if s.len() == 0 || s[0] == c {
        0
    } else {
        1 + find(s.drop_first(), c)
    }
}

/// `find` is the one index that a `c` stands at and none stands before.
pub proof fn lemma_find(s: Seq<char>, c: char)
    ensures
        0 <= find(s, c) <= s.len(),
        find(s, c) < s.len() ==> s[find(s, c)] == c,
        forall|j: int| 0 <= j < find(s, c) ==> s[j] != c,
    decreases s.len(),
{
    if s.len() > 0 && s[0] != c {
        lemma_find(s.drop_first(), c);
        assert forall|j: int| 0 <= j < find(s, c) implies s[j] != c by {
            if j > 0 {
                assert(s.drop_first()[j - 1] == s[j]);
            }
        }
    }
}

pub fn find_char(s: &[char], c: char) -> (r: usize)
    ensures
        r == find(s@, c),
        r <= s.len(),
{
    let mut i: usize = 0;
    proof {
        assert(s@.skip(0) =~= s@);
    }
    while i < s.len() && s[i] != c
        invariant
            i <= s.len(),
            find(s@, c) == i + find(s@.skip(i as int), c),
        decreases s.len() - i,
    {
        proof {
            assert(s@.skip(i as int).drop_first() =~= s@.skip(i + 1));
        }
        i += 1;
    }
    i
}

/// The pieces of `s` between the occurrences of `c`, as `str::split` on a character gives them.
pub open spec fn split_on(s: Seq<char>, c: char) -> Seq<Seq<char>>
    decreases s.len(),
{
    let n = find(s, c);
    if n < 0 || n >= s.len() {
        seq![s]
    } else {
        seq![s.take(n)] + split_on(s.skip(n + 1), c)
    }
}

pub fn split<'a>(s: &'a [char], c: char) -> (r: Vec<&'a [char]>)
    ensures
        slice_views(r@) == split_on(s@, c),
{
    let mut out: Vec<&'a [char]> = Vec::new();
    let mut rest: &'a [char] = s;
    proof {
        assert(slice_views(out@) =~= Seq::<Seq<char>>::empty());
        assert(Seq::<Seq<char>>::empty() + split_on(s@, c) =~= split_on(s@, c));
    }
    loop
        invariant
            slice_views(out@) + split_on(rest@, c) == split_on(s@, c),
        decreases rest.len(),
    {
        let n = find_char(rest, c);
        let ghost before = out@;
        if n >= rest.len() {
            out.push(rest);
            proof {
                assert(slice_views(out@) =~= slice_views(before) + seq![rest@]);
            }
            return out;
        }
        out.push(&rest[0..n]);
        proof {
            assert(rest@.subrange(0, n as int) =~= rest@.take(n as int));
            assert(rest@.subrange(n + 1, rest@.len() as int) =~= rest@.skip(n + 1));
            assert(slice_views(out@) =~= slice_views(before) + seq![rest@.take(n as int)]);
            assert(slice_views(before) + (seq![rest@.take(n as int)] + split_on(rest@.skip(n + 1), c))
                =~= slice_views(before) + seq![rest@.take(n as int)] + split_on(
                rest@.skip(n + 1),
                c,
            ));
        }
        rest = &rest[n + 1..rest.len()];
    }
}

/// `s` without one trailing carriage return.
pub open spec fn chopped(s: Seq<char>) -> Seq<char> {
    if s.len() > 0 && s.last() == '\r' {
        s.drop_last()
    } else {
        s
    }
}

/// The lines of `s`, as `str::lines` gives them: each ends at `\n` or `\r\n`, and the last line
/// needs no ending.
pub open spec fn lines_of(s: Seq<char>) -> Seq<Seq<char>>
    decreases s.len(),
{
    let n = find(s, '\n');
    if s.len() == 0 {
        seq![]
    } else if n < 0 || n >= s.len() {
        seq![s]
    } else {
        seq![chopped(s.take(n))] + lines_of(s.skip(n + 1))
    }
}

pub fn lines<'a>(s: &'a [char]) -> (r: Vec<&'a [char]>)
    ensures
        slice_views(r@) == lines_of(s@),
{
    let mut out: Vec<&'a [char]> = Vec::new();
    let mut rest: &'a [char] = s;
    proof {
        assert(slice_views(out@) =~= Seq::<Seq<char>>::empty());
        assert(Seq::<Seq<char>>::empty() + lines_of(s@) =~= lines_of(s@));
    }
    while rest.len() > 0
        invariant
            slice_views(out@) + lines_of(rest@) == lines_of(s@),
        decreases rest.len(),
    {
        let n = find_char(rest, '\n');
        let ghost before = out@;
        if n >= rest.len() {
            out.push(rest);
            proof {
                assert(slice_views(out@) =~= slice_views(before) + seq![rest@]);
            }
            return out;
        }
        let m: usize = if n > 0 && rest[n - 1] == '\r' {
            n - 1
        } else {
            n
        };
        out.push(&rest[0..m]);
        proof {
            assert(rest@.subrange(0, m as int) =~= chopped(rest@.take(n as int)));
            assert(rest@.subrange(n + 1, rest@.len() as int) =~= rest@.skip(n + 1));
            let line = chopped(rest@.take(n as int));
            assert(slice_views(out@) =~= slice_views(before) + seq![line]);
            assert(slice_views(before) + (seq![line] + lines_of(rest@.skip(n + 1)))
                =~= slice_views(before) + seq![line] + lines_of(rest@.skip(n + 1)));
        }
        rest = &rest[n + 1..rest.len()];
    }
    proof {
        assert(lines_of(rest@) =~= Seq::<Seq<char>>::empty());
        assert(slice_views(out@) + Seq::<Seq<char>>::empty() =~= slice_views(out@));
    }
    out
}

/// Does `s` begin with `p`?
pub open spec fn begins(s: Seq<char>, p: Seq<char>) -> bool {
    p.len() <= s.len() && s.take(p.len() as int) == p
}

pub fn starts(s: &[char], p: &[char]) -> (r: bool)
    ensures
        r == begins(s@, p@),
{
    if p.len() > s.len() {
        return false;
    }
    let mut i: usize = 0;
    while i < p.len()
        invariant
            i <= p.len() <= s.len(),
            forall|j: int| 0 <= j < i ==> s@[j] == p@[j],
        decreases p.len() - i,
    {
        if s[i] != p[i] {
            proof {
                assert(s@.take(p@.len() as int)[i as int] != p@[i as int]);
            }
            return false;
        }
        i += 1;
    }
    proof {
        assert(s@.take(p@.len() as int) =~= p@);
    }
    true
}

/// Does the text `s` begin with the string `p`?
pub fn starts_str(s: &[char], p: &str) -> (r: bool)
    ensures
        r == begins(s@, p@),
{
    let p = chars(p);
    starts(s, &p)
}

/// Do the strings begin one with the other?
pub fn str_starts(s: &str, p: &str) -> (r: bool)
    ensures
        r == begins(s@, p@),
{
    let s = chars(s);
    starts_str(&s, p)
}

/// The parts joined, with `sep` between each two.
pub open spec fn joined(parts: Seq<Seq<char>>, sep: Seq<char>) -> Seq<char>
    decreases parts.len(),
{
    if parts.len() == 0 {
        seq![]
    } else if parts.len() == 1 {
        parts[0]
    } else {
        joined(parts.drop_last(), sep) + sep + parts.last()
    }
}

pub fn join(parts: &Vec<String>, sep: &str) -> (r: String)
    ensures
        r@ == joined(views(parts@), sep@),
{
    let mut out = String::new();
    let mut i: usize = 0;
    let ghost vs = views(parts@);
    while i < parts.len()
        invariant
            i <= parts.len(),
            vs == views(parts@),
            out@ == joined(vs.take(i as int), sep@),
        decreases parts.len() - i,
    {
        if i > 0 {
            out.append(sep);
        }
        out.append(parts[i].as_str());
        i += 1;
        proof {
            assert(vs.take(i as int).drop_last() =~= vs.take(i - 1));
            assert(vs.take(i as int).last() == parts@[i - 1]@);
            if i == 1 {
                assert(out@ =~= parts@[0]@);
            }
        }
    }
    proof {
        assert(vs.take(vs.len() as int) =~= vs);
    }
    out
}

// ── Numbers ──────────────────────────────────────────────────────────────────────────

/// The decimal digit of `d`.
pub open spec fn digit(d: int) -> char {
    ('0' as int + d) as char
}

/// The decimal text of `n`.
pub open spec fn decimal_of(n: nat) -> Seq<char>
    decreases n,
{
    if n < 10 {
        seq![digit(n as int)]
    } else {
        decimal_of(n / 10).push(digit((n % 10) as int))
    }
}

fn digit_char(d: u8) -> (r: char)
    requires
        d < 10,
    ensures
        r == digit(d as int),
{
    ('0' as u8 + d) as char
}

/// Digits as a number is written: at least one, and no zero in front of others.
pub open spec fn canonical(s: Seq<char>) -> bool {
    &&& s.len() > 0
    &&& forall|i: int| 0 <= i < s.len() ==> '0' <= #[trigger] s[i] <= '9'
    &&& s.len() > 1 ==> s[0] != '0'
}

pub proof fn lemma_decimal_is_canonical(n: nat)
    ensures
        canonical(decimal_of(n)),
        n > 0 ==> decimal_of(n)[0] != '0',
    decreases n,
{
    if n >= 10 {
        lemma_decimal_is_canonical(n / 10);
        let rest = decimal_of(n / 10);
        let s = decimal_of(n);
        assert(s == rest.push(digit((n % 10) as int)));
        assert(s[0] == rest[0]);
    }
}

pub proof fn lemma_canonical_is_decimal(s: Seq<char>) -> (n: nat)
    requires
        canonical(s),
    ensures
        decimal_of(n) == s,
    decreases s.len(),
{
    let c = s.last();
    assert(c == s[s.len() - 1]);
    let d = (c as int - '0' as int) as nat;
    assert(digit(d as int) == c);
    if s.len() == 1 {
        assert(decimal_of(d) =~= s);
        d
    } else {
        let rest = s.drop_last();
        assert forall|i: int| 0 <= i < rest.len() implies '0' <= #[trigger] rest[i] <= '9' by {
            assert(rest[i] == s[i]);
        }
        assert(rest[0] == s[0]);
        let m = lemma_canonical_is_decimal(rest);
        assert(m > 0) by {
            if m == 0 {
                assert(decimal_of(0) =~= seq!['0']);
            }
        }
        let n = 10 * m + d;
        assert(n / 10 == m && n % 10 == d);
        assert(rest.push(c) =~= s);
        n
    }
}

/// Is this how a number is written?
pub fn is_decimal(s: &[char]) -> (r: bool)
    ensures
        r == exists|n: nat| #[trigger] decimal_of(n) == s@,
{
    let mut i: usize = 0;
    while i < s.len() && '0' <= s[i] && s[i] <= '9'
        invariant
            i <= s.len(),
            forall|k: int| 0 <= k < i ==> '0' <= #[trigger] s@[k] <= '9',
        decreases s.len() - i,
    {
        i += 1;
    }
    let r = s.len() > 0 && i == s.len() && (s.len() == 1 || s[0] != '0');
    proof {
        assert(r == canonical(s@));
        if r {
            let n = lemma_canonical_is_decimal(s@);
        } else if exists|n: nat| #[trigger] decimal_of(n) == s@ {
            let n = choose|n: nat| #[trigger] decimal_of(n) == s@;
            lemma_decimal_is_canonical(n);
        }
    }
    r
}

/// `n` in decimal.
pub fn decimal(n: u64) -> (r: String)
    ensures
        r@ == decimal_of(n as nat),
    decreases n,
{
    let d = digit_char((n % 10) as u8);
    if n < 10 {
        let mut out = String::new();
        out.push(d);
        proof {
            assert(out@ =~= seq![digit(n as int)]);
        }
        out
    } else {
        let mut out = decimal(n / 10);
        out.push(d);
        out
    }
}

// ── Composing and searching ──────────────────────────────────────────────────────────

/// Two texts, one after the other.
pub fn cat(a: &str, b: &str) -> (r: String)
    ensures
        r@ == a@ + b@,
{
    let mut out = a.to_owned();
    out.append(b);
    out
}

/// Three texts, one after the other.
pub fn cat3(a: &str, b: &str, c: &str) -> (r: String)
    ensures
        r@ == a@ + b@ + c@,
{
    let mut out = a.to_owned();
    out.append(b);
    out.append(c);
    out
}

/// Four texts, one after the other.
pub fn cat4(a: &str, b: &str, c: &str, d: &str) -> (r: String)
    ensures
        r@ == a@ + b@ + c@ + d@,
{
    let mut out = cat3(a, b, c);
    out.append(d);
    out
}

/// Five texts, one after the other.
pub fn cat5(a: &str, b: &str, c: &str, d: &str, e: &str) -> (r: String)
    ensures
        r@ == a@ + b@ + c@ + d@ + e@,
{
    let mut out = cat4(a, b, c, d);
    out.append(e);
    out
}

/// Does `part` stand in `s` at `i`?
pub open spec fn part_at(s: Seq<char>, part: Seq<char>, i: int) -> bool {
    0 <= i && i + part.len() <= s.len() && s.subrange(i, i + part.len()) == part
}

/// Does `part` stand anywhere in `s`?
pub open spec fn has_part(s: Seq<char>, part: Seq<char>) -> bool {
    exists|i: int| #[trigger] part_at(s, part, i)
}

/// `str::contains` on characters.
pub fn contains(s: &[char], part: &[char]) -> (r: bool)
    ensures
        r == has_part(s@, part@),
{
    if part.len() > s.len() {
        return false;
    }
    let last: usize = s.len() - part.len();
    let mut i: usize = 0;
    loop
        invariant
            last == s.len() - part.len(),
            i <= last,
            forall|k: int| 0 <= k < i ==> !#[trigger] part_at(s@, part@, k),
        decreases last - i,
    {
        let rest = &s[i..s.len()];
        proof {
            assert(rest@.take(part@.len() as int) =~= s@.subrange(i as int, i + part@.len()));
        }
        if starts(rest, part) {
            proof {
                assert(part_at(s@, part@, i as int));
            }
            return true;
        }
        if i == last {
            return false;
        }
        i += 1;
    }
}

/// `str::contains`.
pub fn contains_str(s: &str, part: &str) -> (r: bool)
    ensures
        r == has_part(s@, part@),
{
    let a = chars(s);
    let b = chars(part);
    contains(&a, &b)
}

/// Is there white space in `s`?
pub open spec fn has_white(s: Seq<char>) -> bool {
    exists|i: int| 0 <= i < s.len() && white(#[trigger] s[i])
}

pub fn contains_white(s: &[char]) -> (r: bool)
    ensures
        r == has_white(s@),
{
    let mut i: usize = 0;
    while i < s.len()
        invariant
            i <= s.len(),
            forall|j: int| 0 <= j < i ==> !white(#[trigger] s@[j]),
        decreases s.len() - i,
    {
        if is_white(s[i]) {
            proof {
                assert(white(s@[i as int]));
            }
            return true;
        }
        i += 1;
    }
    false
}

/// Is `x` one of `list`?
pub open spec fn listed(list: Seq<Seq<char>>, x: Seq<char>) -> bool {
    list.contains(x)
}

/// Is `x` one of the strings of `list`?
pub fn one_of(list: &Vec<String>, x: &str) -> (r: bool)
    ensures
        r == listed(views(list@), x@),
{
    let mut i: usize = 0;
    while i < list.len()
        invariant
            i <= list.len(),
            forall|j: int| 0 <= j < i ==> #[trigger] views(list@)[j] != x@,
        decreases list.len() - i,
    {
        if same(list[i].as_str(), x) {
            proof {
                assert(views(list@)[i as int] == x@);
            }
            return true;
        }
        i += 1;
    }
    false
}

// ── Case ─────────────────────────────────────────────────────────────────────────────

/// The lower-case mapping of a character beyond ASCII, one character or more.
pub uninterp spec fn lowercase(c: char) -> Seq<char>;

/// The lower-case mapping of a character.
pub open spec fn lower(c: char) -> Seq<char> {
    if c <= '\u{7f}' {
        seq![ascii_lower(c)]
    } else {
        lowercase(c)
    }
}

/// `char::to_lowercase`, a table of the Unicode standard. On ASCII it maps the letters alone.
#[verifier::external_body]
pub(crate) fn lower_char(c: char) -> (r: String)
    ensures
        c <= '\u{7f}' ==> r@ == seq![ascii_lower(c)],
        c > '\u{7f}' ==> r@ == lowercase(c),
{
    c.to_lowercase().to_string()
}

/// A text of ASCII characters alone.
pub open spec fn ascii(s: Seq<char>) -> bool {
    forall|i: int| 0 <= i < s.len() ==> #[trigger] s[i] <= '\u{7f}'
}

/// What `str::to_lowercase` makes of a text that goes beyond ASCII.
pub uninterp spec fn lowercased(s: Seq<char>) -> Seq<char>;

/// A text in lower case.
pub open spec fn lowered(s: Seq<char>) -> Seq<char> {
    if ascii(s) {
        ascii_lowered(s)
    } else {
        lowercased(s)
    }
}

/// `str::to_lowercase`, by the tables of the Unicode standard. On ASCII it maps the letters alone.
pub assume_specification[ str::to_lowercase ](s: &str) -> (r: String)
    ensures
        ascii(s@) ==> r@ == ascii_lowered(s@),
        !ascii(s@) ==> r@ == lowercased(s@),
;

/// A character with the letters `A` to `Z` in lower case.
pub open spec fn ascii_lower(c: char) -> char {
    if 'A' <= c <= 'Z' {
        (c as int + 32) as char
    } else {
        c
    }
}

pub open spec fn ascii_lowered(s: Seq<char>) -> Seq<char> {
    s.map_values(|c: char| ascii_lower(c))
}

/// `char::to_ascii_lowercase`.
pub fn lower_ascii_char(c: char) -> (r: char)
    ensures
        r == ascii_lower(c),
{
    if 'A' <= c && c <= 'Z' {
        (c as u8 + 32) as char
    } else {
        c
    }
}

/// `str::to_ascii_lowercase` on characters.
pub fn lower_ascii(s: &[char]) -> (r: String)
    ensures
        r@ == ascii_lowered(s@),
{
    let mut out = String::new();
    let mut i: usize = 0;
    while i < s.len()
        invariant
            i <= s.len(),
            out@ == ascii_lowered(s@).take(i as int),
        decreases s.len() - i,
    {
        out.push(lower_ascii_char(s[i]));
        i += 1;
        proof {
            let all = ascii_lowered(s@);
            assert(all.take(i as int) =~= all.take(i - 1).push(all[i - 1]));
        }
    }
    proof {
        assert(ascii_lowered(s@).take(s@.len() as int) =~= ascii_lowered(s@));
    }
    out
}

/// `str::eq_ignore_ascii_case`.
pub fn same_ignoring_case(a: &[char], b: &[char]) -> (r: bool)
    ensures
        r == (ascii_lowered(a@) == ascii_lowered(b@)),
{
    lower_ascii(a) == lower_ascii(b)
}

/// A character without regard to its case. The two lower-case forms of sigma count as one: which
/// of them a capital becomes depends on where it stands.
pub open spec fn folded_char(c: char) -> Seq<char> {
    if c == 'ς' {
        lower('σ')
    } else {
        lower(c)
    }
}

/// A text without regard to case and white space: every run of white space counts as one space,
/// and none at either end.
pub open spec fn folded(s: Seq<char>) -> Seq<char>
    decreases s.len(),
{
    if s.len() == 0 {
        seq![]
    } else {
        let rest = s.drop_last();
        if white(s.last()) {
            folded(rest)
        } else if rest.len() > 0 && white(rest.last()) && !blank(rest) {
            folded(rest).push(' ') + folded_char(s.last())
        } else {
            folded(rest) + folded_char(s.last())
        }
    }
}

/// A text without regard to case and white space.
pub fn fold(s: &[char]) -> (r: String)
    ensures
        r@ == folded(s@),
{
    let mut out = String::new();
    let mut seen = false;
    let mut i: usize = 0;
    proof {
        assert(out@ =~= seq![]);
        assert(s@.take(0) =~= seq![]);
    }
    while i < s.len()
        invariant
            i <= s.len(),
            out@ == folded(s@.take(i as int)),
            seen == !blank(s@.take(i as int)),
        decreases s.len() - i,
    {
        let c = s[i];
        let ghost before = s@.take(i as int);
        let ghost now = s@.take(i + 1);
        proof {
            assert(now.drop_last() =~= before);
            assert(now.last() == c);
            if !blank(before) {
                let k = choose|k: int| 0 <= k < before.len() && !white(#[trigger] before[k]);
                assert(now[k] == before[k]);
            } else {
                assert forall|k: int| 0 <= k < now.len() && white(c) implies white(
                    #[trigger] now[k],
                ) by {
                    if k < i {
                        assert(now[k] == before[k]);
                    }
                }
            }
            if !white(c) {
                assert(now[i as int] == c);
            }
        }
        if !is_white(c) {
            if i > 0 && seen && is_white(s[i - 1]) {
                out.push(' ');
            }
            let low = if c == 'ς' {
                lower_char('σ')
            } else {
                lower_char(c)
            };
            out.append(low.as_str());
            seen = true;
        }
        i += 1;
    }
    proof {
        assert(s@.take(s@.len() as int) =~= s@);
    }
    out
}

/// The folded form of a text up to where something follows that does not begin with white space.
pub open spec fn folded_lead(s: Seq<char>) -> Seq<char> {
    if s.len() > 0 && white(s.last()) && !blank(s) {
        folded(s).push(' ')
    } else {
        folded(s)
    }
}

/// What follows, and does not begin with white space, folds by itself.
pub proof fn lemma_folded_add(a: Seq<char>, b: Seq<char>)
    requires
        b.len() > 0,
        !white(b[0]),
    ensures
        folded(a + b) == folded_lead(a) + folded(b),
    decreases b.len(),
{
    let s = a + b;
    let rest = b.drop_last();
    assert(s.drop_last() =~= a + rest);
    assert(s.last() == b.last());
    if rest.len() == 0 {
        assert(a + rest =~= a);
        assert(rest =~= seq![]);
        assert(folded(rest) =~= seq![]);
        assert(folded(b) =~= folded_char(b[0]));
        assert(folded(s) =~= folded_lead(a) + folded_char(b[0]));
    } else {
        lemma_folded_add(a, rest);
        assert(rest[0] == b[0]);
        assert((a + rest).last() == rest.last());
        assert(!blank(rest));
        assert((a + rest)[a.len() as int] == rest[0]);
        assert(!blank(a + rest));
        assert(folded(s) =~= folded_lead(a) + folded(b));
    }
}

/// ASCII characters in lower case without white space fold to themselves.
pub proof fn lemma_folded_plain(s: Seq<char>)
    requires
        forall|i: int|
            0 <= i < s.len() ==> #[trigger] s[i] <= '\u{7f}' && !white(s[i]) && !('A' <= s[i] <= 'Z'),
    ensures
        folded(s) == s,
    decreases s.len(),
{
    if s.len() > 0 {
        let rest = s.drop_last();
        assert forall|i: int| 0 <= i < rest.len() implies #[trigger] rest[i] <= '\u{7f}' && !white(
            rest[i],
        ) && !('A' <= rest[i] <= 'Z') by {
            assert(rest[i] == s[i]);
        }
        lemma_folded_plain(rest);
        assert(s.last() == s[s.len() - 1]);
        if rest.len() > 0 {
            assert(rest.last() == rest[rest.len() - 1]);
        }
        assert(folded(s) =~= rest + seq![s.last()]);
        assert(folded(s) =~= s);
    }
}

/// The first `n` characters.
pub open spec fn first_chars(s: Seq<char>, n: nat) -> Seq<char> {
    if s.len() <= n {
        s
    } else {
        s.take(n as int)
    }
}

pub fn take_chars(s: &[char], n: usize) -> (r: &[char])
    ensures
        r@ == first_chars(s@, n as nat),
{
    if s.len() <= n {
        s
    } else {
        proof {
            assert(s@.subrange(0, n as int) =~= s@.take(n as int));
        }
        &s[0..n]
    }
}

// ── Replacing ────────────────────────────────────────────────────────────────────────

/// `s` with every occurrence of `from` replaced, from the left, without overlap.
pub open spec fn replaced(s: Seq<char>, from: Seq<char>, to: Seq<char>) -> Seq<char>
    decreases s.len(),
{
    if s.len() == 0 {
        seq![]
    } else if from.len() > 0 && begins(s, from) {
        to + replaced(s.skip(from.len() as int), from, to)
    } else {
        seq![s[0]] + replaced(s.drop_first(), from, to)
    }
}

/// `str::replace`.
pub fn replace(s: &str, from: &str, to: &str) -> (r: String)
    requires
        from@.len() > 0,
    ensures
        r@ == replaced(s@, from@, to@),
{
    let all = chars(s);
    let pattern = chars(from);
    let mut out = String::new();
    let mut i: usize = 0;
    proof {
        assert(all@.skip(0) =~= all@);
        assert(out@ + replaced(all@, from@, to@) =~= replaced(all@, from@, to@));
    }
    while i < all.len()
        invariant
            i <= all.len(),
            all@ == s@,
            pattern@ == from@,
            from@.len() > 0,
            out@ + replaced(all@.skip(i as int), from@, to@) == replaced(s@, from@, to@),
        decreases all.len() - i,
    {
        let ghost rest = all@.skip(i as int);
        let ghost before = out@;
        proof {
            assert(all@.subrange(i as int, all@.len() as int) =~= rest);
        }
        if starts(&all[i..all.len()], &pattern) {
            out.append(to);
            proof {
                assert(rest.skip(from@.len() as int) =~= all@.skip(i + from@.len()));
                assert(before + (to@ + replaced(all@.skip(i + from@.len()), from@, to@)) =~= before
                    + to@ + replaced(all@.skip(i + from@.len()), from@, to@));
            }
            i += pattern.len();
        } else {
            out.push(all[i]);
            proof {
                assert(rest.drop_first() =~= all@.skip(i + 1));
                assert(before + (seq![rest[0]] + replaced(all@.skip(i + 1), from@, to@))
                    =~= before.push(rest[0]) + replaced(all@.skip(i + 1), from@, to@));
            }
            i += 1;
        }
    }
    proof {
        assert(all@.skip(i as int) =~= seq![]);
        assert(out@ + replaced(all@.skip(i as int), from@, to@) =~= out@);
    }
    out
}

// ── Words and occurrences ────────────────────────────────────────────────────────────

/// The place of the first white space, or the length.
pub open spec fn white_at(s: Seq<char>) -> int
    decreases s.len(),
{
    if s.len() == 0 || white(s[0]) {
        0
    } else {
        1 + white_at(s.drop_first())
    }
}

/// The first word of a text, empty where there is none.
pub open spec fn first_word(s: Seq<char>) -> Seq<char> {
    let t = trimmed_lead(s, Class::White);
    t.take(white_at(t))
}

/// What stands behind the first word.
pub open spec fn after_first_word(s: Seq<char>) -> Seq<char> {
    let t = trimmed_lead(s, Class::White);
    t.skip(white_at(t))
}

/// The first word of a text and the rest.
pub fn split_word<'a>(s: &'a [char]) -> (r: (&'a [char], &'a [char]))
    ensures
        r.0@ == first_word(s@),
        r.1@ == after_first_word(s@),
{
    let t = trim_lead(s, Class::White);
    let mut i: usize = 0;
    proof {
        assert(t@.skip(0) =~= t@);
    }
    while i < t.len() && !is_white(t[i])
        invariant
            i <= t.len(),
            white_at(t@) == i + white_at(t@.skip(i as int)),
        decreases t.len() - i,
    {
        proof {
            assert(t@.skip(i as int)[0] == t@[i as int]);
            assert(t@.skip(i as int).drop_first() =~= t@.skip(i + 1));
        }
        i += 1;
    }
    proof {
        if i < t.len() {
            assert(t@.skip(i as int)[0] == t@[i as int]);
        }
        assert(t@.subrange(0, i as int) =~= t@.take(i as int));
        assert(t@.subrange(i as int, t@.len() as int) =~= t@.skip(i as int));
    }
    (&t[0..i], &t[i..t.len()])
}

/// The number of occurrences of `part` in `s`, from the left, without overlap.
pub open spec fn occurrences(s: Seq<char>, part: Seq<char>) -> nat
    decreases s.len(),
{
    if s.len() == 0 {
        0
    } else if part.len() > 0 && begins(s, part) {
        1 + occurrences(s.skip(part.len() as int), part)
    } else {
        occurrences(s.drop_first(), part)
    }
}

/// `str::matches(part).count()`.
pub fn count(s: &str, part: &str) -> (r: usize)
    requires
        part@.len() > 0,
    ensures
        r == occurrences(s@, part@),
{
    let all = chars(s);
    let pattern = chars(part);
    let mut n: usize = 0;
    let mut i: usize = 0;
    proof {
        assert(all@.skip(0) =~= all@);
    }
    while i < all.len()
        invariant
            i <= all.len(),
            n <= i,
            all@ == s@,
            pattern@ == part@,
            part@.len() > 0,
            n + occurrences(all@.skip(i as int), part@) == occurrences(s@, part@),
        decreases all.len() - i,
    {
        let ghost rest = all@.skip(i as int);
        proof {
            assert(all@.subrange(i as int, all@.len() as int) =~= rest);
        }
        if starts(&all[i..all.len()], &pattern) {
            proof {
                assert(rest.skip(part@.len() as int) =~= all@.skip(i + part@.len()));
            }
            n += 1;
            i += pattern.len();
        } else {
            proof {
                assert(rest.drop_first() =~= all@.skip(i + 1));
            }
            i += 1;
        }
    }
    proof {
        assert(all@.skip(i as int) =~= seq![]);
    }
    n
}

/// `s` behind `prefix`, where it begins with it.
pub open spec fn behind(s: Seq<char>, prefix: Seq<char>) -> Option<Seq<char>> {
    if begins(s, prefix) {
        Some(s.skip(prefix.len() as int))
    } else {
        None
    }
}

/// `str::strip_prefix` on characters.
pub fn strip_prefix<'a>(s: &'a [char], prefix: &str) -> (r: Option<&'a [char]>)
    ensures
        match r {
            Some(rest) => behind(s@, prefix@) == Some(rest@),
            None => behind(s@, prefix@) is None,
        },
{
    let p = chars(prefix);
    if starts(s, &p) {
        proof {
            assert(s@.subrange(p@.len() as int, s@.len() as int) =~= s@.skip(p@.len() as int));
        }
        Some(&s[p.len()..s.len()])
    } else {
        None
    }
}

/// `n` in decimal.
pub fn decimal_wide(n: u128) -> (r: String)
    ensures
        r@ == decimal_of(n as nat),
    decreases n,
{
    let d = digit_char((n % 10) as u8);
    if n < 10 {
        let mut out = String::new();
        out.push(d);
        proof {
            assert(out@ =~= seq![digit(n as int)]);
        }
        out
    } else {
        let mut out = decimal_wide(n / 10);
        out.push(d);
        out
    }
}

/// Does `a` come before `b` in the dictionary? Where one begins the other, the shorter comes first.
pub open spec fn earlier(a: Seq<char>, b: Seq<char>) -> bool
    decreases a.len(),
{
    if b.len() == 0 {
        false
    } else if a.len() == 0 {
        true
    } else if a[0] != b[0] {
        (a[0] as int) < (b[0] as int)
    } else {
        earlier(a.drop_first(), b.drop_first())
    }
}

/// The order of the dictionary.
pub fn is_earlier(a: &str, b: &str) -> (r: bool)
    ensures
        r == earlier(a@, b@),
{
    let x = chars(a);
    let y = chars(b);
    let mut i: usize = 0;
    proof {
        assert(x@.skip(0) =~= a@);
        assert(y@.skip(0) =~= b@);
    }
    while i < x.len() && i < y.len()
        invariant
            i <= x.len(),
            i <= y.len(),
            earlier(x@.skip(i as int), y@.skip(i as int)) == earlier(a@, b@),
        decreases x.len() - i,
    {
        proof {
            assert(x@.skip(i as int)[0] == x@[i as int]);
            assert(y@.skip(i as int)[0] == y@[i as int]);
            assert(x@.skip(i as int).drop_first() =~= x@.skip(i + 1));
            assert(y@.skip(i as int).drop_first() =~= y@.skip(i + 1));
        }
        if x[i] != y[i] {
            return x[i] <= y[i];
        }
        i += 1;
    }
    i < y.len()
}

/// The order of the dictionary is one: of two different texts, exactly one comes first.
pub proof fn lemma_earlier_total(a: Seq<char>, b: Seq<char>)
    ensures
        !(earlier(a, b) && earlier(b, a)),
        earlier(a, b) || earlier(b, a) <==> a != b,
    decreases a.len(),
{
    if a.len() == 0 && b.len() == 0 {
        assert(a =~= b);
    } else if a.len() > 0 && b.len() > 0 && a[0] == b[0] {
        lemma_earlier_total(a.drop_first(), b.drop_first());
        if a != b && a.drop_first() == b.drop_first() {
            assert(a =~= seq![a[0]] + a.drop_first());
            assert(b =~= seq![b[0]] + b.drop_first());
        }
    }
}

/// What comes before one that comes before a third comes before the third.
pub proof fn lemma_earlier_transitive(a: Seq<char>, b: Seq<char>, c: Seq<char>)
    requires
        earlier(a, b),
        earlier(b, c),
    ensures
        earlier(a, c),
    decreases a.len(),
{
    if a.len() > 0 && b.len() > 0 && c.len() > 0 && a[0] == b[0] && b[0] == c[0] {
        lemma_earlier_transitive(a.drop_first(), b.drop_first(), c.drop_first());
    }
}

} // verus!
