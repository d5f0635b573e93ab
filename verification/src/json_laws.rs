//! What holds of documents in writing, of what counts as equal, and of instants.

use vstd::prelude::*;

use crate::json::{
    all_escaped, compact, element_texts, escaped, field_texts, lookup, quoted, same, JsonView,
};
use crate::text::joined;
use crate::time::{fraction, seconds};

verus! {

// ── Notation ─────────────────────────────────────────────────────────────────────────

/// Text that needs no escape is left as it is.
proof fn lemma_plain_text(s: Seq<char>)
    requires
        forall|i: int|
            0 <= i < s.len() ==> #[trigger] s[i] != '"' && s[i] != '\\' && s[i] > '\u{1f}',
    ensures
        all_escaped(s) == s,
    decreases s.len(),
{
    if s.len() > 0 {
        let rest = s.drop_last();
        assert forall|i: int| 0 <= i < rest.len() implies #[trigger] rest[i] != '"' && rest[i]
            != '\\' && rest[i] > '\u{1f}' by {
            assert(rest[i] == s[i]);
        }
        lemma_plain_text(rest);
        assert(s[s.len() - 1] == s.last());
    }
    assert(all_escaped(s) =~= s);
}

/// Text without quotation marks, backslashes and control characters stands between quotation marks
/// as it is.
pub proof fn law_plain_text_is_quoted_as_it_is(s: Seq<char>)
    requires
        forall|i: int|
            0 <= i < s.len() ==> #[trigger] s[i] != '"' && s[i] != '\\' && s[i] > '\u{1f}',
    ensures
        quoted(s) == seq!['"'] + s + seq!['"'],
{
    lemma_plain_text(s);
}

/// What ends a string or cannot stand in one has an escape: a quotation mark and a backslash stand
/// behind a backslash, a line feed, a carriage return and a tab are a letter behind one, and no
/// control character is left.
pub proof fn law_special_characters_are_escaped(s: Seq<char>, c: char)
    ensures
        all_escaped(s.push(c)) == all_escaped(s) + escaped(c),
        all_escaped(seq![]) == Seq::<char>::empty(),
        escaped('"') == seq!['\\', '"'],
        escaped('\\') == seq!['\\', '\\'],
        escaped('\n') == seq!['\\', 'n'],
        escaped('\r') == seq!['\\', 'r'],
        escaped('\t') == seq!['\\', 't'],
        forall|i: int| 0 <= i < escaped(c).len() ==> #[trigger] escaped(c)[i] > '\u{1f}',
        escaped(c)[0] == '\\' <==> c == '"' || c == '\\' || c <= '\u{1f}',
{
    assert(s.push(c).drop_last() =~= s);
}

/// An array is its elements in order, between square brackets and with commas between them; an
/// object is its fields in order, each a quoted name, a colon and a value.
pub proof fn law_documents_are_written_in_order(
    x: Seq<JsonView>,
    v: JsonView,
    fields: Seq<(Seq<char>, JsonView)>,
    name: Seq<char>,
)
    ensures
        compact(JsonView::Array(seq![])) == "["@ + "]"@,
        compact(JsonView::Array(seq![v])) == "["@ + compact(v) + "]"@,
        element_texts(x.push(v)) == element_texts(x).push(compact(v)),
        compact(JsonView::Array(x)) == "["@ + joined(element_texts(x), ","@) + "]"@,
        compact(JsonView::Object(seq![])) == "{"@ + "}"@,
        compact(JsonView::Object(seq![(name, v)])) == "{"@ + quoted(name) + ":"@ + compact(v) + "}"@,
        field_texts(fields.push((name, v))) == field_texts(fields).push(
            quoted(name) + ":"@ + compact(v),
        ),
        compact(JsonView::Object(fields)) == "{"@ + joined(field_texts(fields), ","@) + "}"@,
{
    reveal_with_fuel(compact, 2);
    reveal_with_fuel(joined, 2);
    let none: Seq<JsonView> = seq![];
    assert(element_texts(none) =~= seq![]);
    assert("["@ + Seq::<char>::empty() + "]"@ =~= "["@ + "]"@);
    let one = seq![v];
    assert(one[0] == v);
    assert(element_texts(one) =~= seq![compact(v)]);
    assert(element_texts(x.push(v)) =~= element_texts(x).push(compact(v)));
    let no_field: Seq<(Seq<char>, JsonView)> = seq![];
    assert(field_texts(no_field) =~= seq![]);
    assert("{"@ + Seq::<char>::empty() + "}"@ =~= "{"@ + "}"@);
    let field = seq![(name, v)];
    assert(field[0] == (name, v));
    assert(field_texts(field) =~= seq![quoted(name) + ":"@ + compact(v)]);
    assert("{"@ + (quoted(name) + ":"@ + compact(v)) + "}"@ =~= "{"@ + quoted(name) + ":"@ + compact(v)
        + "}"@);
    assert(field_texts(fields.push((name, v))) =~= field_texts(fields).push(
        quoted(name) + ":"@ + compact(v),
    ));
    assert(seq![compact(v)].drop_last() =~= Seq::<Seq<char>>::empty());
}

/// Simple values are written as they are named.
pub proof fn law_simple_values_have_their_words(s: Seq<char>)
    ensures
        compact(JsonView::Null) == "null"@,
        compact(JsonView::Bool(true)) == "true"@,
        compact(JsonView::Bool(false)) == "false"@,
        compact(JsonView::Str(s)) == quoted(s),
{
}

// ── Equality ─────────────────────────────────────────────────────────────────────────

/// Equal documents are of one kind. Strings are equal where they are the same text; arrays where
/// they are equally long and equal place by place; objects where each field of the one is an equal
/// field of the other, in whatever order.
pub proof fn law_equal_documents_say_the_same(a: JsonView, b: JsonView)
    ensures
        same(a, b) ==> (a is Null <==> b is Null) && (a is Bool <==> b is Bool) && (a is Number
            <==> b is Number) && (a is Str <==> b is Str) && (a is Array <==> b is Array) && (
        a is Object <==> b is Object),
        a is Str && b is Str ==> (same(a, b) <==> a == b),
        a is Bool && b is Bool ==> (same(a, b) <==> a == b),
        a is Array && b is Array ==> (same(a, b) <==> a->Array_0.len() == b->Array_0.len()
            && forall|i: int|
            0 <= i < a->Array_0.len() ==> same(#[trigger] a->Array_0[i], b->Array_0[i])),
        a is Object && b is Object ==> (same(a, b) <==> a->Object_0.len() == b->Object_0.len()
            && forall|i: int|
            0 <= i < a->Object_0.len() ==> lookup(b->Object_0, (#[trigger] a->Object_0[i]).0) is Some
                && same(a->Object_0[i].1, lookup(b->Object_0, a->Object_0[i].0)->0)),
{
}

// ── Instants ─────────────────────────────────────────────────────────────────────────

/// An instant is its whole seconds and a fraction of less than one, before the epoch too.
pub proof fn law_instants_are_seconds_and_a_fraction(t: i128)
    ensures
        seconds(t) * 1_000_000_000 + fraction(t) == t,
        fraction(t) < 1_000_000_000,
{
}

} // verus!
