//! What a schema demands of a fact, and what a tenant demands of a write.

use vstd::prelude::*;

use crate::engine::plan::{governed, prepared, GovernanceRules};
use crate::error::ErrorView;
use crate::json::{lookup, JsonView};
use crate::memory::cognition::InputView;
use crate::memory::facts::{
    attributed, fact_errors, grammar, kind_name, kind_named, law_kinds_round_trip, subject_errors, told,
    FactKind, FactValidation, RulesView,
};
use crate::memory::schema::{
    all_strings, compiled, compiled_all, date_parses, of_type, regex_matches,
    rfc3339_parses, supported, supported_format, uuid_parses, well_formatted, NodeView,
};
use crate::text::{begins, has_part, joined, replaced, white};

verus! {

// ── Schemas ──────────────────────────────────────────────────────────────────────────

proof fn lemma_all_strings(v: Seq<JsonView>)
    ensures
        all_strings(v) is Some ==> all_strings(v)->0.len() == v.len() && forall|i: int|
            0 <= i < v.len() ==> #[trigger] v[i] == JsonView::Str(all_strings(v)->0[i]),
    decreases v.len(),
{
    if v.len() > 0 {
        let rest = v.drop_last();
        lemma_all_strings(rest);
        if all_strings(v) is Some {
            let xs = all_strings(v)->0;
            assert forall|i: int| 0 <= i < v.len() implies #[trigger] v[i] == JsonView::Str(
                xs[i],
            ) by {
                if i < rest.len() {
                    assert(rest[i] == v[i]);
                }
            }
        }
    }
}

proof fn lemma_compiled_all(subs: Seq<(Seq<char>, JsonView)>, path: Seq<char>)
    ensures
        compiled_all(subs, path) is Ok ==> {
            let ps = compiled_all(subs, path)->Ok_0;
            &&& ps.len() == subs.len()
            &&& forall|i: int|
                0 <= i < subs.len() ==> (#[trigger] ps[i]).0 == subs[i].0 && compiled(
                    subs[i].1,
                    path + "/"@ + subs[i].0,
                ) == Ok::<NodeView, Seq<char>>(ps[i].1)
        },
    decreases subs.len(),
{
    if subs.len() > 0 {
        let rest = subs.drop_last();
        lemma_compiled_all(rest, path);
        if compiled_all(subs, path) is Ok {
            let ps = compiled_all(subs, path)->Ok_0;
            assert forall|i: int| 0 <= i < subs.len() implies (#[trigger] ps[i]).0 == subs[i].0
                && compiled(subs[i].1, path + "/"@ + subs[i].0) == Ok::<NodeView, Seq<char>>(
                ps[i].1,
            ) by {
                if i < rest.len() {
                    assert(rest[i] == subs[i]);
                    assert(ps[i] == compiled_all(rest, path)->Ok_0[i]);
                }
            }
        }
    }
}

/// A compiled schema demands what its text says, keyword by keyword, and nothing that it does not
/// say: no assertion is dropped on the way.
pub proof fn law_schemas_demand_what_they_say(
    fields: Seq<(Seq<char>, JsonView)>,
    path: Seq<char>,
    i: int,
)
    requires
        compiled(JsonView::Object(fields), path) is Ok,
    ensures
        ({
            let node = compiled(JsonView::Object(fields), path)->Ok_0;
            let types = lookup(fields, "type"@);
            let properties = lookup(fields, "properties"@);
            let required = lookup(fields, "required"@);
            let items = lookup(fields, "items"@);
            &&& node.constant == lookup(fields, "const"@)
            &&& node.enumeration is Some <==> lookup(fields, "enum"@) is Some && lookup(
                fields,
                "enum"@,
            )->0 is Array
            &&& node.enumeration is Some ==> lookup(fields, "enum"@) == Some(
                JsonView::Array(node.enumeration->0),
            )
            &&& node.additional_properties <==> lookup(fields, "additionalProperties"@) != Some(
                JsonView::Bool(false),
            )
            &&& node.unique_items <==> lookup(fields, "uniqueItems"@) == Some(JsonView::Bool(true))
            &&& node.min_length == limit(lookup(fields, "minLength"@))
            &&& node.max_length == limit(lookup(fields, "maxLength"@))
            &&& node.min_items == limit(lookup(fields, "minItems"@))
            &&& node.max_items == limit(lookup(fields, "maxItems"@))
            &&& node.minimum is Some ==> lookup(fields, "minimum"@) == Some(
                JsonView::Number(node.minimum->0),
            )
            &&& node.minimum is None ==> !(lookup(fields, "minimum"@) is Some && lookup(
                fields,
                "minimum"@,
            )->0 is Number)
            &&& node.maximum is Some ==> lookup(fields, "maximum"@) == Some(
                JsonView::Number(node.maximum->0),
            )
            &&& node.maximum is None ==> !(lookup(fields, "maximum"@) is Some && lookup(
                fields,
                "maximum"@,
            )->0 is Number)
            &&& node.pattern is Some ==> lookup(fields, "pattern"@) == Some(
                JsonView::Str(node.pattern->0),
            )
            &&& node.pattern is None ==> lookup(fields, "pattern"@) is None
            &&& node.format is Some ==> lookup(fields, "format"@) == Some(
                JsonView::Str(node.format->0),
            )
            &&& node.format is None ==> lookup(fields, "format"@) is None
            &&& types is None ==> node.types.len() == 0
            &&& types is Some && types->0 is Str ==> node.types == seq![types->0->Str_0]
            &&& types is Some && types->0 is Array ==> node.types.len() == types->0->Array_0.len()
                && (0 <= i < node.types.len() ==> types->0->Array_0[i] == JsonView::Str(
                node.types[i],
            ))
            &&& required is None ==> node.required.len() == 0
            &&& required is Some ==> required->0 is Array && node.required.len()
                == required->0->Array_0.len() && (0 <= i < node.required.len()
                ==> required->0->Array_0[i] == JsonView::Str(node.required[i]))
            &&& items is None <==> node.items is None
            &&& items is Some ==> compiled(items->0, path + "/items"@) == Ok::<NodeView, Seq<char>>(
                *node.items->0,
            )
            &&& properties is None ==> node.properties.len() == 0
            &&& properties is Some ==> properties->0 is Object && node.properties.len()
                == properties->0->Object_0.len() && (0 <= i < node.properties.len()
                ==> node.properties[i].0 == properties->0->Object_0[i].0 && compiled(
                properties->0->Object_0[i].1,
                path + "/"@ + properties->0->Object_0[i].0,
            ) == Ok::<NodeView, Seq<char>>(node.properties[i].1))
        }),
{
    if let Some(JsonView::Array(ts)) = lookup(fields, "type"@) {
        lemma_all_strings(ts);
    }
    if let Some(JsonView::Array(ts)) = lookup(fields, "required"@) {
        lemma_all_strings(ts);
    }
    if let Some(JsonView::Object(subs)) = lookup(fields, "properties"@) {
        lemma_compiled_all(subs, path);
    }
}

/// The limit of a keyword: a number that is not negative and has no fraction.
pub open spec fn limit(v: Option<JsonView>) -> Option<int> {
    match v {
        Some(JsonView::Number(n)) => match n.int {
            Some(i) if 0 <= i <= u64::MAX => Some(i),
            _ => None,
        },
        _ => None,
    }
}

/// The keywords that a schema may hold are those that are looked at, and the annotations; the
/// formats are those that are checked. Anything else is refused, so that no document passes on the
/// strength of what nobody reads.
pub proof fn law_only_what_is_checked_is_accepted(key: Seq<char>, format: Seq<char>)
    ensures
        supported(key) <==> seq![
            "$schema"@,
            "$id"@,
            "title"@,
            "description"@,
            "examples"@,
            "default"@,
            "type"@,
            "properties"@,
            "required"@,
            "additionalProperties"@,
            "enum"@,
            "const"@,
            "pattern"@,
            "minLength"@,
            "maxLength"@,
            "minimum"@,
            "maximum"@,
            "minItems"@,
            "maxItems"@,
            "uniqueItems"@,
            "items"@,
            "format"@,
        ].contains(key),
        supported_format(format) <==> seq!["date-time"@, "date"@, "uri"@, "uuid"@].contains(format),
{
    let all = seq![
        "$schema"@,
        "$id"@,
        "title"@,
        "description"@,
        "examples"@,
        "default"@,
        "type"@,
        "properties"@,
        "required"@,
        "additionalProperties"@,
        "enum"@,
        "const"@,
        "pattern"@,
        "minLength"@,
        "maxLength"@,
        "minimum"@,
        "maximum"@,
        "minItems"@,
        "maxItems"@,
        "uniqueItems"@,
        "items"@,
        "format"@,
    ];
    let some = seq!["date-time"@, "date"@, "uri"@, "uuid"@];
    assert(all[0] == "$schema"@ && all[1] == "$id"@ && all[2] == "title"@ && all[3]
        == "description"@ && all[4] == "examples"@ && all[5] == "default"@ && all[6] == "type"@);
    assert(all[7] == "properties"@ && all[8] == "required"@ && all[9] == "additionalProperties"@
        && all[10] == "enum"@ && all[11] == "const"@ && all[12] == "pattern"@);
    assert(all[13] == "minLength"@ && all[14] == "maxLength"@ && all[15] == "minimum"@ && all[16]
        == "maximum"@ && all[17] == "minItems"@ && all[18] == "maxItems"@);
    assert(all[19] == "uniqueItems"@ && all[20] == "items"@ && all[21] == "format"@);
    assert(some[0] == "date-time"@ && some[1] == "date"@ && some[2] == "uri"@ && some[3]
        == "uuid"@);
}

/// The types of documents are told apart as their names say; an integer is a number too.
pub proof fn law_types_mean_what_they_say(v: JsonView)
    ensures
        of_type("null"@, v) <==> v is Null,
        of_type("boolean"@, v) <==> v is Bool,
        of_type("string"@, v) <==> v is Str,
        of_type("array"@, v) <==> v is Array,
        of_type("object"@, v) <==> v is Object,
        of_type("number"@, v) <==> v is Number,
        of_type("integer"@, v) <==> v is Number && v->Number_0.int is Some,
{
    reveal_strlit("null");
    reveal_strlit("boolean");
    reveal_strlit("string");
    reveal_strlit("array");
    reveal_strlit("object");
    reveal_strlit("number");
    reveal_strlit("integer");
    assert("null"@.len() == 4 && "boolean"@[0] == 'b' && "string"@[0] == 's' && "array"@[0] == 'a'
        && "object"@[0] == 'o' && "number"@[0] == 'n' && "integer"@[0] == 'i' && "number"@.len()
        == 6 && "null"@[0] == 'n');
}

/// A text has a format where what reads that format reads it; an address has `://` in it and no
/// white space.
pub proof fn law_formats_are_checked(s: Seq<char>)
    ensures
        well_formatted("date-time"@, s) == rfc3339_parses(s),
        well_formatted("date"@, s) == date_parses(s, "%Y-%m-%d"@),
        well_formatted("uuid"@, s) == uuid_parses(s),
        well_formatted("uri"@, s) <==> has_part(s, "://"@) && forall|i: int|
            0 <= i < s.len() ==> !white(#[trigger] s[i]),
{
    reveal_strlit("date-time");
    reveal_strlit("date");
    reveal_strlit("uuid");
    reveal_strlit("uri");
    assert("date-time"@.len() == 9 && "date"@.len() == 4 && "uuid"@.len() == 4 && "uri"@.len() == 3
        && "date"@[0] == 'd' && "uuid"@[0] == 'u');
}

// ── Kinds ────────────────────────────────────────────────────────────────────────────

/// A fact whose kind has a form of subject is held to it: a subject that matches raises nothing, one
/// that does not is named together with the form, and none at all is asked for.
pub proof fn law_subjects_are_held_to_their_form(
    kind: FactKind,
    subject: Option<Seq<char>>,
    form: Seq<char>,
    pattern: Seq<char>,
)
    ensures
        grammar(kind) is None ==> subject_errors(kind, subject).len() == 0,
        grammar(kind) == Some((form, pattern)) && subject is Some && subject->0.len() > 0
            && regex_matches(pattern, subject->0) ==> subject_errors(kind, subject).len() == 0,
        grammar(kind) == Some((form, pattern)) && subject is Some && subject->0.len() > 0
            && !regex_matches(pattern, subject->0) ==> subject_errors(kind, subject) == seq![
            "subject: `"@ + subject->0 + "` does not match the `"@ + kind_name(kind)
                + "` grammar `"@ + form + "`"@,
        ],
        grammar(kind) == Some((form, pattern)) && !(subject is Some && subject->0.len() > 0)
            ==> subject_errors(kind, subject) == seq![
            "subject: a `"@ + kind_name(kind) + "` fact needs a subject of the form `"@ + form
                + "` — without it nothing supersedes anything"@,
        ],
{
}

/// Every kind of fact but `other` has a form of subject, and its pattern is held to the whole
/// subject, from its start to its end.
pub proof fn law_forms_cover_the_whole_subject(kind: FactKind)
    ensures
        grammar(kind) is Some <==> kind != FactKind::Other,
        grammar(kind) matches Some((form, pattern)) ==> pattern.len() > 2 && pattern[0] == '^'
            && pattern.last() == '$' && form.len() > 0 && form[0] == pattern[1],
{
    reveal_strlit("decision:<area>:<slug>");
    reveal_strlit("^decision:[a-z0-9][a-z0-9._/-]*:[a-z0-9][a-z0-9._/-]*$");
    reveal_strlit("convention:<area>:<slug>");
    reveal_strlit("^convention:[a-z0-9][a-z0-9._/-]*:[a-z0-9][a-z0-9._/-]*$");
    reveal_strlit("incident:<service>:<yyyy-mm-dd>");
    reveal_strlit("^incident:[a-z0-9][a-z0-9._/-]*:\\d{4}-\\d{2}-\\d{2}$");
    reveal_strlit("ticket:<tracker>:<key>");
    reveal_strlit("^ticket:[a-z0-9][a-z0-9._/-]*:[a-z0-9][a-z0-9._/-]*$");
    reveal_strlit("run_lesson:<workflow>:<slug>");
    reveal_strlit("^run_lesson:[a-z0-9][a-z0-9._/-]*:[a-z0-9][a-z0-9._/-]*$");
    reveal_strlit("flaky_test:<path>::<name>");
    reveal_strlit("^flaky_test:[^:]+::\\S.*$");
    reveal_strlit("hotspot:<path>");
    reveal_strlit("^hotspot:\\S+$");
    reveal_strlit("finding:<tool>:<rule>");
    reveal_strlit("^finding:[a-z0-9][a-z0-9._/-]*:[a-z0-9][a-z0-9._/-]*$");
}

/// A subject is accepted exactly where it matches the pattern of its kind; a fact of kind `other`
/// may have any.
pub proof fn law_subjects_match_the_pattern_of_their_kind(s: Seq<char>)
    ensures
        subject_errors(FactKind::Decision, Some(s)).len() == 0 <==> s.len() > 0 && regex_matches(
            "^decision:[a-z0-9][a-z0-9._/-]*:[a-z0-9][a-z0-9._/-]*$"@,
            s,
        ),
        subject_errors(FactKind::Convention, Some(s)).len() == 0 <==> s.len() > 0 && regex_matches(
            "^convention:[a-z0-9][a-z0-9._/-]*:[a-z0-9][a-z0-9._/-]*$"@,
            s,
        ),
        subject_errors(FactKind::Incident, Some(s)).len() == 0 <==> s.len() > 0 && regex_matches(
            "^incident:[a-z0-9][a-z0-9._/-]*:\\d{4}-\\d{2}-\\d{2}$"@,
            s,
        ),
        subject_errors(FactKind::TicketSummary, Some(s)).len() == 0 <==> s.len() > 0 && regex_matches(
            "^ticket:[a-z0-9][a-z0-9._/-]*:[a-z0-9][a-z0-9._/-]*$"@,
            s,
        ),
        subject_errors(FactKind::RunLesson, Some(s)).len() == 0 <==> s.len() > 0 && regex_matches(
            "^run_lesson:[a-z0-9][a-z0-9._/-]*:[a-z0-9][a-z0-9._/-]*$"@,
            s,
        ),
        subject_errors(FactKind::FlakyTest, Some(s)).len() == 0 <==> s.len() > 0 && regex_matches(
            "^flaky_test:[^:]+::\\S.*$"@,
            s,
        ),
        subject_errors(FactKind::Hotspot, Some(s)).len() == 0 <==> s.len() > 0 && regex_matches(
            "^hotspot:\\S+$"@,
            s,
        ),
        subject_errors(FactKind::Finding, Some(s)).len() == 0 <==> s.len() > 0 && regex_matches(
            "^finding:[a-z0-9][a-z0-9._/-]*:[a-z0-9][a-z0-9._/-]*$"@,
            s,
        ),
        subject_errors(FactKind::Other, Some(s)).len() == 0,
{
}

/// The kinds of fact go by their names.
pub proof fn law_kinds_go_by_their_names()
    ensures
        kind_named("decision"@) == Some(FactKind::Decision),
        kind_named("convention"@) == Some(FactKind::Convention),
        kind_named("incident"@) == Some(FactKind::Incident),
        kind_named("ticket_summary"@) == Some(FactKind::TicketSummary),
        kind_named("run_lesson"@) == Some(FactKind::RunLesson),
        kind_named("flaky_test"@) == Some(FactKind::FlakyTest),
        kind_named("hotspot"@) == Some(FactKind::Hotspot),
        kind_named("finding"@) == Some(FactKind::Finding),
        kind_named("other"@) == Some(FactKind::Other),
{
    law_kinds_round_trip(FactKind::Decision);
    law_kinds_round_trip(FactKind::Convention);
    law_kinds_round_trip(FactKind::Incident);
    law_kinds_round_trip(FactKind::TicketSummary);
    law_kinds_round_trip(FactKind::RunLesson);
    law_kinds_round_trip(FactKind::FlakyTest);
    law_kinds_round_trip(FactKind::Hotspot);
    law_kinds_round_trip(FactKind::Finding);
    law_kinds_round_trip(FactKind::Other);
}

proof fn lemma_nothing_to_replace(s: Seq<char>, from: Seq<char>, to: Seq<char>, c: char)
    requires
        from.contains(c),
        !s.contains(c),
    ensures
        replaced(s, from, to) == s,
    decreases s.len(),
{
    if s.len() > 0 {
        let rest = s.drop_first();
        assert(!rest.contains(c)) by {
            if rest.contains(c) {
                let k = choose|k: int| 0 <= k < rest.len() && rest[k] == c;
                assert(s[k + 1] == c);
            }
        }
        assert(!begins(s, from)) by {
            if begins(s, from) {
                let k = choose|k: int| 0 <= k < from.len() && from[k] == c;
                assert(s.take(from.len() as int)[k] == s[k]);
                assert(s.contains(s[k]));
            }
        }
        lemma_nothing_to_replace(rest, from, to, c);
    }
    assert(replaced(s, from, to) =~= s);
}

/// What is wrong with a fact is told at its place in the metadata: what is wrong with all of them is
/// told of `metadata`, what is wrong with a field of `metadata.` and the field.
pub proof fn law_errors_are_told_of_the_metadata(e: Seq<char>, rest: Seq<char>)
    ensures
        !e.contains('<') ==> told(e) == "metadata."@ + e,
        !rest.contains('<') ==> told("<root>"@ + rest) == "metadata"@ + rest,
{
    reveal_strlit("metadata.");
    reveal_strlit("metadata.<root>");
    reveal_strlit("<root>");
    let from = "metadata.<root>"@;
    let to = "metadata"@;
    assert(from[9] == '<');
    assert(from.contains('<'));
    if !e.contains('<') {
        let whole = "metadata."@ + e;
        assert(!whole.contains('<')) by {
            if whole.contains('<') {
                let k = choose|k: int| 0 <= k < whole.len() && whole[k] == '<';
                assert(k >= 9);
                assert(e[k - 9] == '<');
            }
        }
        lemma_nothing_to_replace(whole, from, to, '<');
    }
    if !rest.contains('<') {
        let whole = "metadata."@ + ("<root>"@ + rest);
        assert(from =~= "metadata."@ + "<root>"@);
        assert(whole.take(15) =~= from);
        assert(whole.skip(15) =~= rest);
        lemma_nothing_to_replace(rest, from, to, '<');
    }
}

// ── Governance ───────────────────────────────────────────────────────────────────────

/// A write says where it comes from by a source that is not blank, or by the events behind it.
pub proof fn law_writes_are_attributed_by_source_or_evidence(
    metadata: JsonView,
    sources: nat,
    source: Seq<char>,
)
    ensures
        sources > 0 ==> attributed(metadata, sources),
        sources == 0 && metadata.field("provenance"@) is Some && metadata.field(
            "provenance"@,
        )->0.field("source"@) == Some(JsonView::Str(source)) ==> (attributed(metadata, sources)
            <==> exists|i: int| 0 <= i < source.len() && !white(#[trigger] source[i])),
        sources == 0 && metadata.field("provenance"@) is None ==> !attributed(metadata, sources),
{
}

/// A tenant that requires provenance refuses a write without it, whatever else it says; one that is
/// strict about facts refuses a wrong one, with all its errors; one that warns accepts it and tells
/// them; and nothing else is refused.
pub proof fn law_writes_are_held_to_the_rules(
    rules: GovernanceRules,
    facts: RulesView,
    subject: Option<Seq<char>>,
    metadata: JsonView,
    sources: nat,
)
    ensures
        ({
            let r = governed(rules, facts, subject, metadata, sources);
            let errors = fact_errors(facts, subject, metadata);
            let unattributed = rules.require_provenance && !attributed(metadata, sources);
            &&& r is Err <==> unattributed || (rules.fact_validation == FactValidation::Strict
                && errors.len() > 0)
            &&& r is Err && !unattributed ==> r->Err_0 == ErrorView::Validation(
                joined(errors, "; "@),
            )
            &&& r is Err ==> r->Err_0 is Validation
            &&& r is Ok && rules.fact_validation == FactValidation::Warn ==> r->Ok_0 == errors
            &&& r is Ok && rules.fact_validation != FactValidation::Warn ==> r->Ok_0.len() == 0
        }),
{
}

/// What is planned is what was written: only the tenant is filled in where none is named, and the
/// subject is the normal form, where that is not empty.
pub proof fn law_preparing_fills_in_the_tenant(input: InputView, normalized: Option<Seq<char>>)
    ensures
        ({
            let p = prepared(input, normalized);
            &&& input.scope.tenant_id.len() > 0 ==> p.scope == input.scope
            &&& input.scope.tenant_id.len() == 0 ==> p.scope.tenant_id == "default"@
            &&& p.scope.user_id == input.scope.user_id && p.scope.agent_id == input.scope.agent_id
                && p.scope.session_id == input.scope.session_id
            &&& normalized is Some && normalized->0.len() > 0 ==> p.subject == normalized
            &&& normalized is None || normalized->0.len() == 0 ==> p.subject is None
            &&& p.content == input.content && p.importance == input.importance
            &&& p.source_event_ids == input.source_event_ids && p.metadata == input.metadata
            &&& p.mem_type == input.mem_type && p.valid_from == input.valid_from
            &&& p.project == input.project
        }),
{
}

} // verus!
