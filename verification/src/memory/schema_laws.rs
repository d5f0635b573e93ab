//! What it means to satisfy a schema, and that the validator decides it.

use vstd::prelude::*;

use crate::json::{lookup, same, JsonView};
use crate::memory::schema::{
    among, compiled, first_repeated, first_unsupported, item_violations, known, missing_errors,
    property_violations, regex_matches, repeated, supported, typed, unknown_errors, violations,
    well_formatted, NodeView,
};

verus! {

/// A document satisfies a schema: it has one of the types, is one of the values, and meets every
/// assertion that applies to its type, and so do its parts.
pub open spec fn conforms(node: NodeView, v: JsonView) -> bool
    decreases node,
{
    &&& typed(node.types, v)
    &&& node.enumeration is Some ==> among(node.enumeration->0, v)
    &&& node.constant is Some ==> same(v, node.constant->0)
    &&& match v {
        JsonView::Str(s) => {
            &&& node.min_length is Some ==> s.len() >= node.min_length->0
            &&& node.max_length is Some ==> s.len() <= node.max_length->0
            &&& node.pattern is Some ==> regex_matches(node.pattern->0, s)
            &&& node.format is Some ==> well_formatted(node.format->0, s)
        },
        JsonView::Number(n) => {
            &&& node.minimum is Some ==> n.order >= node.minimum->0.order
            &&& node.maximum is Some ==> n.order <= node.maximum->0.order
        },
        JsonView::Array(items) => {
            &&& node.min_items is Some ==> items.len() >= node.min_items->0
            &&& node.max_items is Some ==> items.len() <= node.max_items->0
            &&& node.unique_items ==> forall|i: int|
                0 <= i < items.len() ==> !#[trigger] repeated(items, i)
            &&& match node.items {
                Some(sub) => forall|i: int|
                    0 <= i < items.len() ==> conforms(*sub, #[trigger] items[i]),
                None => true,
            }
        },
        JsonView::Object(fields) => {
            &&& forall|i: int|
                0 <= i < node.required.len() ==> lookup(fields, #[trigger] node.required[i]) is Some
            &&& forall|i: int|
                0 <= i < node.properties.len() ==> match lookup(
                    fields,
                    (#[trigger] node.properties[i]).0,
                ) {
                    Some(child) => conforms(node.properties[i].1, child),
                    None => true,
                }
            &&& node.additional_properties || forall|i: int|
                0 <= i < fields.len() ==> known(node.properties, (#[trigger] fields[i]).0)
        },
        _ => true,
    }
}

proof fn lemma_repeated(items: Seq<JsonView>, i: int)
    requires
        0 <= i <= items.len(),
    ensures
        first_repeated(items, i) is None <==> forall|k: int|
            i <= k < items.len() ==> !#[trigger] repeated(items, k),
    decreases items.len() - i,
{
    if i < items.len() {
        lemma_repeated(items, i + 1);
        if first_repeated(items, i) is None {
            assert forall|k: int| i <= k < items.len() implies !#[trigger] repeated(items, k) by {
                if k > i {
                }
            }
        }
    }
}

proof fn lemma_missing(
    required: Seq<Seq<char>>,
    fields: Seq<(Seq<char>, JsonView)>,
    path: Seq<char>,
    n: nat,
)
    requires
        n <= required.len(),
    ensures
        missing_errors(required, fields, path, n).len() == 0 <==> forall|i: int|
            0 <= i < n ==> lookup(fields, #[trigger] required[i]) is Some,
    decreases n,
{
    if n > 0 {
        lemma_missing(required, fields, path, (n - 1) as nat);
        assert(required[n - 1] == required[n - 1]);
    }
}

proof fn lemma_unknown(
    properties: Seq<(Seq<char>, NodeView)>,
    fields: Seq<(Seq<char>, JsonView)>,
    path: Seq<char>,
    n: nat,
)
    requires
        n <= fields.len(),
    ensures
        unknown_errors(properties, fields, path, n).len() == 0 <==> forall|i: int|
            0 <= i < n ==> known(properties, (#[trigger] fields[i]).0),
    decreases n,
{
    if n > 0 {
        lemma_unknown(properties, fields, path, (n - 1) as nat);
        assert(fields[n - 1] == fields[n - 1]);
    }
}

proof fn lemma_items(sub: NodeView, items: Seq<JsonView>, path: Seq<char>, n: nat)
    requires
        n <= items.len(),
    ensures
        item_violations(sub, items, path, n).len() == 0 <==> forall|i: int|
            0 <= i < n ==> conforms(sub, #[trigger] items[i]),
    decreases sub, n + 1,
{
    if n > 0 {
        lemma_items(sub, items, path, (n - 1) as nat);
        law_no_violation_means_conforming(
            sub,
            items[n - 1],
            path + "["@ + crate::text::decimal_of((n - 1) as nat) + "]"@,
        );
    }
}

proof fn lemma_properties(
    properties: Seq<(Seq<char>, NodeView)>,
    fields: Seq<(Seq<char>, JsonView)>,
    path: Seq<char>,
)
    ensures
        property_violations(properties, fields, path).len() == 0 <==> forall|i: int|
            0 <= i < properties.len() ==> match lookup(fields, (#[trigger] properties[i]).0) {
                Some(child) => conforms(properties[i].1, child),
                None => true,
            },
    decreases properties, 0nat,
{
    if properties.len() > 0 {
        let rest = properties.drop_last();
        let last = properties.last();
        lemma_properties(rest, fields, path);
        assert(properties[properties.len() - 1] == last);
        if lookup(fields, last.0) is Some {
            law_no_violation_means_conforming(
                last.1,
                lookup(fields, last.0)->0,
                path + "."@ + last.0,
            );
        }
        if property_violations(properties, fields, path).len() == 0 {
            assert forall|i: int| 0 <= i < properties.len() implies match lookup(
                fields,
                (#[trigger] properties[i]).0,
            ) {
                Some(child) => conforms(properties[i].1, child),
                None => true,
            } by {
                if i < rest.len() {
                    assert(rest[i] == properties[i]);
                }
            }
        } else {
            if property_violations(rest, fields, path).len() > 0 {
                let i = choose|i: int|
                    0 <= i < rest.len() && !(match lookup(fields, (#[trigger] rest[i]).0) {
                        Some(child) => conforms(rest[i].1, child),
                        None => true,
                    });
                assert(properties[i] == rest[i]);
            }
        }
    }
}

/// Validation is exact: a document has no violation exactly where it satisfies the schema,
/// wherever it stands.
pub proof fn law_no_violation_means_conforming(node: NodeView, v: JsonView, path: Seq<char>)
    ensures
        violations(node, v, path).len() == 0 <==> conforms(node, v),
    decreases node, 1nat,
{
    if typed(node.types, v) {
        match v {
            JsonView::Array(items) => {
                lemma_repeated(items, 0);
                if node.items is Some {
                    lemma_items(*node.items->0, items, path, items.len());
                }
            },
            JsonView::Object(fields) => {
                lemma_missing(node.required, fields, path, node.required.len());
                lemma_unknown(node.properties, fields, path, fields.len());
                lemma_properties(node.properties, fields, path);
            },
            _ => {},
        }
    }
}

/// A schema with a keyword that is not supported never compiles.
pub proof fn law_unsupported_keyword_is_refused(schema: JsonView, path: Seq<char>, i: int)
    requires
        schema is Object,
        0 <= i < schema->Object_0.len(),
        !supported(schema->Object_0[i].0),
    ensures
        compiled(schema, path) is Err,
{
    lemma_unsupported(schema->Object_0, i);
}

proof fn lemma_unsupported(fields: Seq<(Seq<char>, JsonView)>, i: int)
    requires
        0 <= i < fields.len(),
        !supported(fields[i].0),
    ensures
        first_unsupported(fields) is Some,
    decreases fields.len(),
{
    if supported(fields[0].0) {
        assert(fields.drop_first()[i - 1] == fields[i]);
        lemma_unsupported(fields.drop_first(), i - 1);
    }
}

} // verus!
