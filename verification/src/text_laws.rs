//! What holds of the operations on text that everything else is built on.

use vstd::prelude::*;

use crate::text::{
    after_first_word, ascii_lower, ascii_lowered, find, first_chars, first_word, joined,
    lemma_find, replaced, split_on, trimmed, trimmed_both, trimmed_lead, trimmed_tail, white,
    white_at, Class,
};

verus! {

// ── Trimming ─────────────────────────────────────────────────────────────────────────

proof fn lemma_lead(s: Seq<char>, k: Class) -> (a: int)
    ensures
        0 <= a <= s.len(),
        trimmed_lead(s, k) == s.skip(a),
        forall|i: int| 0 <= i < a ==> k.has(#[trigger] s[i]),
        a < s.len() ==> !k.has(s[a]),
    decreases s.len(),
{
    if s.len() > 0 && k.has(s[0]) {
        let rest = s.drop_first();
        let b = lemma_lead(rest, k);
        assert(rest.skip(b) =~= s.skip(b + 1));
        assert forall|i: int| 0 <= i < b + 1 implies k.has(#[trigger] s[i]) by {
            if i > 0 {
                assert(rest[i - 1] == s[i]);
            }
        }
        if b < rest.len() {
            assert(rest[b] == s[b + 1]);
        }
        b + 1
    } else {
        assert(s.skip(0) =~= s);
        0
    }
}

proof fn lemma_tail(s: Seq<char>, k: Class) -> (b: int)
    ensures
        0 <= b <= s.len(),
        trimmed_tail(s, k) == s.take(b),
        forall|i: int| b <= i < s.len() ==> k.has(#[trigger] s[i]),
        b > 0 ==> !k.has(s[b - 1]),
    decreases s.len(),
{
    if s.len() > 0 && k.has(s.last()) {
        let rest = s.drop_last();
        let b = lemma_tail(rest, k);
        assert(rest.take(b) =~= s.take(b));
        assert forall|i: int| b <= i < s.len() implies k.has(#[trigger] s[i]) by {
            if i < rest.len() {
                assert(rest[i] == s[i]);
            }
        }
        if b > 0 {
            assert(rest[b - 1] == s[b - 1]);
        }
        b
    } else {
        assert(s.take(s.len() as int) =~= s);
        s.len() as int
    }
}

/// Trimming takes characters of its class from both ends, as many as there are, and nothing else:
/// what is left stands in the text as it is, and has none at either end.
pub proof fn law_trimming_takes_the_ends(s: Seq<char>, k: Class)
    ensures
        exists|a: int, b: int|
            0 <= a <= b <= s.len() && #[trigger] s.subrange(a, b) == trimmed_both(s, k) && (forall|
                i: int,
            |
                0 <= i < a || b <= i < s.len() ==> k.has(#[trigger] s[i])),
        trimmed_both(s, k).len() > 0 ==> !k.has(trimmed_both(s, k)[0]) && !k.has(
            trimmed_both(s, k).last(),
        ),
{
    let a = lemma_lead(s, k);
    let t = s.skip(a);
    let n = lemma_tail(t, k);
    let b = a + n;
    assert(s.subrange(a, b) =~= t.take(n));
    assert forall|i: int| 0 <= i < a || b <= i < s.len() implies k.has(#[trigger] s[i]) by {
        if i >= b {
            assert(t[i - a] == s[i]);
        }
    }
    if n > 0 {
        assert(t[0] == s[a]);
        assert(t.take(n)[0] == t[0]);
        assert(t.take(n).last() == t[n - 1]);
    }
}

/// A text without white space around it stays as it is; one that is nothing else becomes empty, and
/// only such a one does.
pub proof fn law_trimmed_texts_stay(s: Seq<char>)
    ensures
        s.len() > 0 && !white(s[0]) && !white(s.last()) ==> trimmed(s) == s,
        trimmed(s).len() == 0 <==> forall|i: int| 0 <= i < s.len() ==> white(#[trigger] s[i]),
        trimmed(trimmed(s)) == trimmed(s),
{
    let a = lemma_lead(s, Class::White);
    let t = s.skip(a);
    let n = lemma_tail(t, Class::White);
    if s.len() > 0 && !white(s[0]) && !white(s.last()) {
        assert(a == 0);
        assert(t =~= s);
        assert(n == s.len());
        assert(t.take(n) =~= s);
    }
    if n == 0 {
        assert forall|i: int| 0 <= i < s.len() implies white(#[trigger] s[i]) by {
            if i >= a {
                assert(t[i - a] == s[i]);
            }
        }
    } else {
        assert(t[n - 1] == s[a + n - 1]);
        assert(!white(s[a + n - 1]));
        let u = t.take(n);
        assert(u[0] == s[a] && u.last() == t[n - 1]);
        let c = lemma_lead(u, Class::White);
        assert(c == 0);
        assert(u.skip(0) =~= u);
        let d = lemma_tail(u, Class::White);
        assert(d == u.len());
        assert(u.take(d) =~= u);
    }
    if n == 0 {
        assert(trimmed(s) =~= seq![]);
        assert(trimmed(trimmed(s)) =~= seq![]);
    }
}

// ── Splitting and joining ────────────────────────────────────────────────────────────

/// Splitting loses nothing: the pieces, joined by what they were split at, are the text, and no
/// piece holds it.
pub proof fn law_splitting_loses_nothing(s: Seq<char>, c: char, i: int)
    ensures
        split_on(s, c).len() > 0,
        joined(split_on(s, c), seq![c]) == s,
        0 <= i < split_on(s, c).len() ==> !split_on(s, c)[i].contains(c),
    decreases s.len(),
{
    lemma_find(s, c);
    let n = find(s, c);
    let parts = split_on(s, c);
    if n >= s.len() {
        assert(parts =~= seq![s]);
        assert(!s.contains(c)) by {
            if s.contains(c) {
                let k = choose|k: int| 0 <= k < s.len() && s[k] == c;
                assert(s[k] == c);
            }
        }
    } else {
        let head = s.take(n);
        let rest = s.skip(n + 1);
        let more = split_on(rest, c);
        law_splitting_loses_nothing(rest, c, i - 1);
        lemma_joined_front(head, more, seq![c]);
        assert(s =~= head + seq![c] + rest);
        assert(!head.contains(c)) by {
            if head.contains(c) {
                let k = choose|k: int| 0 <= k < head.len() && head[k] == c;
                assert(s[k] == c);
            }
        }
        if 0 < i < parts.len() {
            assert(parts[i] == more[i - 1]);
        }
    }
}

/// Texts are joined in their order, with what joins them in between and nowhere else.
pub proof fn law_joining_keeps_the_order(
    first: Seq<char>,
    parts: Seq<Seq<char>>,
    last: Seq<char>,
    sep: Seq<char>,
)
    ensures
        joined(seq![], sep) == Seq::<char>::empty(),
        joined(seq![first], sep) == first,
        parts.len() > 0 ==> joined(seq![first] + parts, sep) == first + sep + joined(parts, sep),
        parts.len() > 0 ==> joined(parts.push(last), sep) == joined(parts, sep) + sep + last,
{
    assert(seq![first][0] == first);
    if parts.len() > 0 {
        lemma_joined_front(first, parts, sep);
        assert(parts.push(last).drop_last() =~= parts);
    }
}

proof fn lemma_joined_front(first: Seq<char>, parts: Seq<Seq<char>>, sep: Seq<char>)
    requires
        parts.len() > 0,
    ensures
        joined(seq![first] + parts, sep) == first + sep + joined(parts, sep),
    decreases parts.len(),
{
    let all = seq![first] + parts;
    assert(all.last() == parts.last());
    assert(all.drop_last() =~= seq![first] + parts.drop_last());
    if parts.len() == 1 {
        assert(all.drop_last() =~= seq![first]);
        assert(joined(all.drop_last(), sep) == first);
        assert(joined(all, sep) =~= first + sep + joined(parts, sep));
    } else {
        lemma_joined_front(first, parts.drop_last(), sep);
        assert(joined(all, sep) =~= first + sep + joined(parts, sep));
    }
}

/// The first word of a text has no white space, begins at the first character that is none, and ends
/// before the next that is; nothing of the text is lost but white space before it.
pub proof fn law_words_end_at_white_space(s: Seq<char>)
    ensures
        exists|a: int, b: int|
            0 <= a <= b <= s.len() && #[trigger] s.subrange(a, b) == first_word(s) && s.skip(b)
                == after_first_word(s) && (forall|i: int| 0 <= i < a ==> white(#[trigger] s[i])) && (
            forall|i: int| a <= i < b ==> !white(#[trigger] s[i])) && (b < s.len() ==> white(s[b])),
{
    let a = lemma_lead(s, Class::White);
    let t = s.skip(a);
    lemma_white_at(t);
    let n = white_at(t);
    let b = a + n;
    assert(s.subrange(a, b) =~= t.take(n));
    assert(s.skip(b) =~= t.skip(n));
    assert forall|i: int| a <= i < b implies !white(#[trigger] s[i]) by {
        assert(t[i - a] == s[i]);
    }
    if b < s.len() {
        assert(t[n] == s[b]);
    }
}

proof fn lemma_white_at(s: Seq<char>)
    ensures
        0 <= white_at(s) <= s.len(),
        forall|i: int| 0 <= i < white_at(s) ==> !white(#[trigger] s[i]),
        white_at(s) < s.len() ==> white(s[white_at(s)]),
    decreases s.len(),
{
    if s.len() > 0 && !white(s[0]) {
        let rest = s.drop_first();
        lemma_white_at(rest);
        assert forall|i: int| 0 <= i < white_at(s) implies !white(#[trigger] s[i]) by {
            if i > 0 {
                assert(rest[i - 1] == s[i]);
            }
        }
        if white_at(rest) < rest.len() {
            assert(rest[white_at(rest)] == s[white_at(s)]);
        }
    }
}

// ── Characters ───────────────────────────────────────────────────────────────────────

/// Lowering changes the letters from A to Z, each to its own small one, and nothing else; the length
/// stays, and what is lowered is not changed by it again.
pub proof fn law_lowering_changes_capitals(s: Seq<char>, i: int)
    requires
        0 <= i < s.len(),
    ensures
        ascii_lowered(s).len() == s.len(),
        'A' <= s[i] <= 'Z' ==> ascii_lowered(s)[i] as int == s[i] as int + 32,
        !('A' <= s[i] <= 'Z') ==> ascii_lowered(s)[i] == s[i],
        ascii_lowered(ascii_lowered(s))[i] == ascii_lowered(s)[i],
{
    assert(ascii_lowered(s)[i] == ascii_lower(s[i]));
}

/// The start of a text is as long as asked for, or all of it.
pub proof fn law_starts_are_cut_to_length(s: Seq<char>, n: nat)
    ensures
        first_chars(s, n).len() == if s.len() < n {
            s.len()
        } else {
            n
        },
        first_chars(s, n).is_prefix_of(s),
{
}

/// A text in which a character does not stand is not changed by replacing it; every one that stands
/// there is replaced.
pub proof fn law_replacing_replaces_every_one(s: Seq<char>, t: Seq<char>, c: char, to: Seq<char>)
    ensures
        !s.contains(c) ==> replaced(s, seq![c], to) == s,
        replaced(s + seq![c] + t, seq![c], to) == replaced(s, seq![c], to) + to + replaced(
            t,
            seq![c],
            to,
        ),
    decreases s.len(),
{
    let from = seq![c];
    let all = s + from + t;
    if s.len() == 0 {
        assert(all =~= from + t);
        assert(all.take(1) =~= from);
        assert(all.skip(1) =~= t);
        assert(replaced(all, from, to) =~= replaced(s, from, to) + to + replaced(t, from, to));
        assert(replaced(s, from, to) =~= s);
    } else {
        let rest = s.drop_first();
        law_replacing_replaces_every_one(rest, t, c, to);
        assert(all.drop_first() =~= rest + from + t);
        assert(all.skip(1) =~= rest + from + t);
        assert(s.skip(1) =~= rest);
        assert(all.take(1) =~= seq![s[0]] && s.take(1) =~= seq![s[0]]);
        if s[0] == c {
            assert(s.contains(s[0]));
            assert(crate::text::begins(all, from) && crate::text::begins(s, from));
        } else {
            assert(!crate::text::begins(all, from)) by {
                assert(all.take(1)[0] == s[0]);
            }
            assert(!crate::text::begins(s, from)) by {
                assert(s.take(1)[0] == s[0]);
            }
            if !s.contains(c) {
                assert(!rest.contains(c)) by {
                    if rest.contains(c) {
                        let k = choose|k: int| 0 <= k < rest.len() && rest[k] == c;
                        assert(s[k + 1] == c);
                    }
                }
                assert(replaced(s, from, to) =~= s);
            }
        }
        assert(replaced(all, from, to) =~= replaced(s, from, to) + to + replaced(t, from, to));
    }
}

} // verus!
