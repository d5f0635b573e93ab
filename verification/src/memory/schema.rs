//! A small JSON Schema validator: the part of the 2020-12 dialect that the fact schemas use.
//!
//! A keyword that nobody implemented must not pass every document in silence: compiling refuses a
//! schema that holds a keyword or a format that is not supported here.

use vstd::prelude::*;

use crate::json::{field_views, lookup, same, Json, JsonView, Num, NumView};
use crate::text;
use crate::text::{cat, cat3, cat5, decimal_of, has_part, has_white, joined, trimmed_lead, views, Class};

verus! {

broadcast use vstd::string::group_string_axioms;

// ── Model ────────────────────────────────────────────────────────────────────────────

/// What a compiled schema demands.
pub struct NodeView {
    pub types: Seq<Seq<char>>,
    pub properties: Seq<(Seq<char>, NodeView)>,
    pub required: Seq<Seq<char>>,
    pub additional_properties: bool,
    pub enumeration: Option<Seq<JsonView>>,
    pub constant: Option<JsonView>,
    pub pattern: Option<Seq<char>>,
    pub min_length: Option<int>,
    pub max_length: Option<int>,
    pub minimum: Option<NumView>,
    pub maximum: Option<NumView>,
    pub min_items: Option<int>,
    pub max_items: Option<int>,
    pub unique_items: bool,
    pub items: Option<Box<NodeView>>,
    pub format: Option<Seq<char>>,
}

/// The keywords that a schema may hold: annotations, which are not looked at, and assertions.
pub open spec fn supported(key: Seq<char>) -> bool {
    ||| key == "$schema"@
    ||| key == "$id"@
    ||| key == "title"@
    ||| key == "description"@
    ||| key == "examples"@
    ||| key == "default"@
    ||| key == "type"@
    ||| key == "properties"@
    ||| key == "required"@
    ||| key == "additionalProperties"@
    ||| key == "enum"@
    ||| key == "const"@
    ||| key == "pattern"@
    ||| key == "minLength"@
    ||| key == "maxLength"@
    ||| key == "minimum"@
    ||| key == "maximum"@
    ||| key == "minItems"@
    ||| key == "maxItems"@
    ||| key == "uniqueItems"@
    ||| key == "items"@
    ||| key == "format"@
}

/// The formats that are checked.
pub open spec fn supported_format(f: Seq<char>) -> bool {
    f == "date-time"@ || f == "date"@ || f == "uri"@ || f == "uuid"@
}

/// The first key that is not supported.
pub open spec fn first_unsupported(fields: Seq<(Seq<char>, JsonView)>) -> Option<Seq<char>>
    decreases fields.len(),
{
    if fields.len() == 0 {
        None
    } else if !supported(fields[0].0) {
        Some(fields[0].0)
    } else {
        first_unsupported(fields.drop_first())
    }
}

/// All elements as strings, or `None` where one is not a string.
pub open spec fn all_strings(v: Seq<JsonView>) -> Option<Seq<Seq<char>>>
    decreases v.len(),
{
    if v.len() == 0 {
        Some(seq![])
    } else {
        match (all_strings(v.drop_last()), v.last()) {
            (Some(xs), JsonView::Str(s)) => Some(xs.push(s)),
            _ => None,
        }
    }
}

pub open spec fn types_of(v: Option<JsonView>, path: Seq<char>) -> Result<Seq<Seq<char>>, Seq<char>> {
    match v {
        None => Ok(seq![]),
        Some(JsonView::Str(t)) => Ok(seq![t]),
        Some(JsonView::Array(ts)) => match all_strings(ts) {
            Some(xs) => Ok(xs),
            None => Err(path + ": `type` entries must be strings"@),
        },
        Some(_) => Err(path + ": `type` must be a string or an array"@),
    }
}

pub open spec fn required_of(v: Option<JsonView>, path: Seq<char>) -> Result<
    Seq<Seq<char>>,
    Seq<char>,
> {
    match v {
        None => Ok(seq![]),
        Some(JsonView::Array(ts)) => match all_strings(ts) {
            Some(xs) => Ok(xs),
            None => Err(path + ": `required` entries must be strings"@),
        },
        Some(_) => Err(path + ": `required` must be an array"@),
    }
}

pub open spec fn pattern_at(v: Option<JsonView>, path: Seq<char>) -> Result<
    Option<Seq<char>>,
    Seq<char>,
> {
    match v {
        None => Ok(None),
        Some(JsonView::Str(p)) => match regex_refusal(p) {
            None => Ok(Some(p)),
            Some(e) => Err(path + ": invalid `pattern` regex: "@ + e),
        },
        Some(_) => Err(path + ": `pattern` must be a string"@),
    }
}

pub open spec fn format_at(v: Option<JsonView>, path: Seq<char>) -> Result<
    Option<Seq<char>>,
    Seq<char>,
> {
    match v {
        None => Ok(None),
        Some(JsonView::Str(f)) => if supported_format(f) {
            Ok(Some(f))
        } else {
            Err(
                path + ": unsupported `format` `"@ + f
                    + "` — supported: date-time, date, uri, uuid"@,
            )
        },
        Some(_) => Err(path + ": `format` must be a string"@),
    }
}

pub open spec fn flag(v: Option<JsonView>, otherwise: bool) -> bool {
    match v {
        Some(JsonView::Bool(b)) => b,
        _ => otherwise,
    }
}

pub open spec fn bound(v: Option<JsonView>) -> Option<int> {
    match v {
        Some(j) => j.unsigned(),
        None => None,
    }
}

pub open spec fn number(v: Option<JsonView>) -> Option<NumView> {
    match v {
        Some(JsonView::Number(n)) => Some(n),
        _ => None,
    }
}

pub open spec fn elements(v: Option<JsonView>) -> Option<Seq<JsonView>> {
    match v {
        Some(JsonView::Array(x)) => Some(x),
        _ => None,
    }
}

/// A field is smaller than the object that holds it.
pub proof fn lemma_lookup_decreases(fields: Seq<(Seq<char>, JsonView)>, key: Seq<char>)
    ensures
        lookup(fields, key) is Some ==> decreases_to!(fields => lookup(fields, key)->0),
{
    crate::json::lemma_lookup(fields, key);
    if lookup(fields, key) is Some {
        let i = choose|i: int|
            0 <= i < fields.len() && (#[trigger] fields[i]) == (key, lookup(fields, key)->0);
        assert(decreases_to!(fields => fields[i]));
        assert(decreases_to!(fields[i] => fields[i].1));
    }
}

/// What a schema compiles to, or the first thing that is wrong with it.
pub open spec fn compiled(schema: JsonView, path: Seq<char>) -> Result<NodeView, Seq<char>>
    decreases schema, 1nat,
{
    match schema {
        JsonView::Object(fields) => {
            proof {
                lemma_lookup_decreases(fields, "properties"@);
                lemma_lookup_decreases(fields, "items"@);
            }
            let get = |key: Seq<char>| lookup(fields, key);
            if first_unsupported(fields) is Some {
                Err(
                    path + ": unsupported schema keyword `"@ + first_unsupported(fields)->0
                        + "` — see memory::schema::SUPPORTED"@,
                )
            } else if types_of(get("type"@), path) is Err {
                Err(types_of(get("type"@), path)->Err_0)
            } else {
                let properties = match lookup(fields, "properties"@) {
                    None => Ok(seq![]),
                    Some(JsonView::Object(subs)) => compiled_all(subs, path),
                    Some(_) => Err(path + ": `properties` must be an object"@),
                };
                let required = required_of(get("required"@), path);
                let pattern = pattern_at(get("pattern"@), path);
                let format = format_at(get("format"@), path);
                let items = match lookup(fields, "items"@) {
                    None => Ok(None),
                    Some(sub) => match compiled(sub, path + "/items"@) {
                        Ok(n) => Ok(Some(Box::new(n))),
                        Err(e) => Err(e),
                    },
                };
                match (properties, required, pattern, format, items) {
                    (Err(e), _, _, _, _) => Err(e),
                    (Ok(_), Err(e), _, _, _) => Err(e),
                    (Ok(_), Ok(_), Err(e), _, _) => Err(e),
                    (Ok(_), Ok(_), Ok(_), Err(e), _) => Err(e),
                    (Ok(_), Ok(_), Ok(_), Ok(_), Err(e)) => Err(e),
                    (Ok(properties), Ok(required), Ok(pattern), Ok(format), Ok(items)) => Ok(
                        NodeView {
                            types: types_of(get("type"@), path)->Ok_0,
                            properties,
                            required,
                            additional_properties: flag(get("additionalProperties"@), true),
                            enumeration: elements(get("enum"@)),
                            constant: get("const"@),
                            pattern,
                            min_length: bound(get("minLength"@)),
                            max_length: bound(get("maxLength"@)),
                            minimum: number(get("minimum"@)),
                            maximum: number(get("maximum"@)),
                            min_items: bound(get("minItems"@)),
                            max_items: bound(get("maxItems"@)),
                            unique_items: flag(get("uniqueItems"@), false),
                            items,
                            format,
                        },
                    ),
                }
            }
        },
        _ => Err(path + ": a schema must be an object"@),
    }
}

/// The schemas of properties, compiled in order up to the first that is wrong.
pub open spec fn compiled_all(subs: Seq<(Seq<char>, JsonView)>, path: Seq<char>) -> Result<
    Seq<(Seq<char>, NodeView)>,
    Seq<char>,
>
    decreases subs, 0nat,
{
    if subs.len() == 0 {
        Ok(seq![])
    } else {
        let last = subs.last();
        match compiled_all(subs.drop_last(), path) {
            Err(e) => Err(e),
            Ok(before) => match compiled(last.1, path + "/"@ + last.0) {
                Err(e) => Err(e),
                Ok(n) => Ok(before.push((last.0, n))),
            },
        }
    }
}

// ── Patterns ─────────────────────────────────────────────────────────────────────────

/// `regex::Regex`, a compiled pattern.
#[verifier::external_type_specification]
#[verifier::external_body]
pub struct ExRegex(regex::Regex);

/// What `regex::Regex::new` says of a pattern: the text of its error, or nothing where the pattern
/// compiles.
pub uninterp spec fn regex_refusal(pattern: Seq<char>) -> Option<Seq<char>>;

/// What `regex::Regex::as_str` gives back: the pattern.
pub uninterp spec fn pattern_of(re: regex::Regex) -> Seq<char>;

/// What `regex::Regex::is_match` answers for a pattern and a text.
pub uninterp spec fn regex_matches(pattern: Seq<char>, s: Seq<char>) -> bool;

/// `regex::Regex::new`, which keeps the pattern that it compiled. An error comes as its text.
#[verifier::external_body]
pub(crate) fn new_regex(pattern: &str) -> (r: Result<regex::Regex, String>)
    ensures
        match r {
            Ok(re) => regex_refusal(pattern@) is None && pattern_of(re) == pattern@,
            Err(e) => regex_refusal(pattern@) == Some(e@),
        },
{
    regex::Regex::new(pattern).map_err(|e| e.to_string())
}

/// `regex::Regex::is_match`: is there a match anywhere in the text?
#[verifier::external_body]
pub(crate) fn regex_is_match(re: &regex::Regex, s: &str) -> (r: bool)
    ensures
        r == regex_matches(pattern_of(*re), s@),
{
    re.is_match(s)
}

/// `regex::Regex::as_str`, the pattern as it was written.
#[verifier::external_body]
fn regex_text(re: &regex::Regex) -> (r: String)
    ensures
        r@ == pattern_of(*re),
{
    re.as_str().to_owned()
}

// ── Compiling ────────────────────────────────────────────────────────────────────────

/// A compiled schema node: patterns are compiled once, not per document.
#[derive(Debug)]
struct Node {
    types: Vec<String>,
    properties: Vec<(String, Node)>,
    required: Vec<String>,
    additional_properties: bool,
    enumeration: Option<Vec<Json>>,
    constant: Option<Json>,
    pattern: Option<regex::Regex>,
    min_length: Option<u64>,
    max_length: Option<u64>,
    minimum: Option<Num>,
    maximum: Option<Num>,
    min_items: Option<u64>,
    max_items: Option<u64>,
    unique_items: bool,
    items: Option<Box<Node>>,
    format: Option<String>,
}

spec fn trees(v: Seq<Json>) -> Seq<JsonView> {
    v.map_values(|j: Json| j@)
}

spec fn opt_int(o: Option<u64>) -> Option<int> {
    match o {
        Some(n) => Some(n as int),
        None => None,
    }
}

spec fn opt_num(o: Option<Num>) -> Option<NumView> {
    match o {
        Some(n) => Some(n@),
        None => None,
    }
}

spec fn node_view(n: Node) -> NodeView
    decreases n,
{
    NodeView {
        types: views(n.types@),
        properties: Seq::new(
            n.properties@.len(),
            |i: int|
                if 0 <= i < n.properties@.len() {
                    (n.properties@[i].0@, node_view(n.properties@[i].1))
                } else {
                    arbitrary()
                },
        ),
        required: views(n.required@),
        additional_properties: n.additional_properties,
        enumeration: match n.enumeration {
            Some(v) => Some(trees(v@)),
            None => None,
        },
        constant: match n.constant {
            Some(j) => Some(j@),
            None => None,
        },
        pattern: match n.pattern {
            Some(re) => Some(pattern_of(re)),
            None => None,
        },
        min_length: opt_int(n.min_length),
        max_length: opt_int(n.max_length),
        minimum: opt_num(n.minimum),
        maximum: opt_num(n.maximum),
        min_items: opt_int(n.min_items),
        max_items: opt_int(n.max_items),
        unique_items: n.unique_items,
        items: match n.items {
            Some(b) => Some(Box::new(node_view(*b))),
            None => None,
        },
        format: text::opt_view(n.format),
    }
}

impl View for Node {
    type V = NodeView;

    closed spec fn view(&self) -> NodeView {
        node_view(*self)
    }
}

fn is_supported(key: &str) -> (r: bool)
    ensures
        r == supported(key@),
{
    text::same(key, "$schema") || text::same(key, "$id") || text::same(key, "title") || text::same(
        key,
        "description",
    ) || text::same(key, "examples") || text::same(key, "default") || text::same(key, "type")
        || text::same(key, "properties") || text::same(key, "required") || text::same(
        key,
        "additionalProperties",
    ) || text::same(key, "enum") || text::same(key, "const") || text::same(key, "pattern")
        || text::same(key, "minLength") || text::same(key, "maxLength") || text::same(
        key,
        "minimum",
    ) || text::same(key, "maximum") || text::same(key, "minItems") || text::same(key, "maxItems")
        || text::same(key, "uniqueItems") || text::same(key, "items") || text::same(key, "format")
}

/// The first key of a schema that is not supported.
fn unsupported_key(fields: &Vec<(String, Json)>) -> (r: Option<&str>)
    ensures
        text::opt_str_view(r) == first_unsupported(field_views(fields@)),
{
    let ghost all = field_views(fields@);
    proof {
        assert(all.skip(0) =~= all);
    }
    let mut i: usize = 0;
    while i < fields.len()
        invariant
            i <= fields.len(),
            all == field_views(fields@),
            first_unsupported(all.skip(i as int)) == first_unsupported(all),
        decreases fields.len() - i,
    {
        proof {
            assert(all.skip(i as int)[0] == all[i as int]);
            assert(all.skip(i as int).drop_first() =~= all.skip(i + 1));
        }
        if !is_supported(fields[i].0.as_str()) {
            return Some(fields[i].0.as_str());
        }
        i += 1;
    }
    None
}

/// All elements as strings.
fn strings(v: &Vec<Json>) -> (r: Option<Vec<String>>)
    ensures
        match r {
            Some(xs) => all_strings(trees(v@)) == Some(views(xs@)),
            None => all_strings(trees(v@)) is None,
        },
{
    let ghost all = trees(v@);
    let mut out: Vec<String> = Vec::new();
    let mut i: usize = 0;
    proof {
        assert(views(out@) =~= seq![]);
        assert(all.take(0) =~= seq![]);
    }
    while i < v.len()
        invariant
            i <= v.len(),
            all == trees(v@),
            all_strings(all.take(i as int)) == Some(views(out@)),
        decreases v.len() - i,
    {
        proof {
            assert(all.take(i + 1).drop_last() =~= all.take(i as int));
            assert(all.take(i + 1).last() == v@[i as int]@);
        }
        match &v[i] {
            Json::Str(s) => {
                let ghost before = out@;
                out.push(s.clone());
                proof {
                    assert(views(out@) =~= views(before).push(s@));
                }
            },
            _ => {
                proof {
                    assert(all_strings(all.take(i + 1)) is None);
                    lemma_not_all_strings(all, i + 1);
                }
                return None;
            },
        }
        i += 1;
    }
    proof {
        assert(all.take(all.len() as int) =~= all);
    }
    Some(out)
}

proof fn lemma_not_all_strings(v: Seq<JsonView>, n: int)
    requires
        0 <= n <= v.len(),
        all_strings(v.take(n)) is None,
    ensures
        all_strings(v) is None,
    decreases v.len() - n,
{
    if n == v.len() {
        assert(v.take(n) =~= v);
    } else {
        assert(v.take(n + 1).drop_last() =~= v.take(n));
        lemma_not_all_strings(v, n + 1);
    }
}

fn compile_types(v: Option<&Json>, path: &str) -> (r: Result<Vec<String>, String>)
    ensures
        match r {
            Ok(xs) => types_of(crate::json::opt_tree(v), path@) == Ok::<_, Seq<char>>(views(xs@)),
            Err(e) => types_of(crate::json::opt_tree(v), path@) == Err::<Seq<Seq<char>>, _>(e@),
        },
{
    match v {
        None => {
            let none: Vec<String> = Vec::new();
            proof {
                assert(views(none@) =~= seq![]);
            }
            Ok(none)
        },
        Some(Json::Str(t)) => {
            let mut one: Vec<String> = Vec::new();
            one.push(t.clone());
            proof {
                assert(views(one@) =~= seq![t@]);
            }
            Ok(one)
        },
        Some(Json::Array(ts)) => {
            proof {
                assert(trees(ts@) =~= v->0@->Array_0);
            }
            match strings(ts) {
                Some(xs) => Ok(xs),
                None => Err(cat(path, ": `type` entries must be strings")),
            }
        },
        Some(_) => Err(cat(path, ": `type` must be a string or an array")),
    }
}

fn compile_required(v: Option<&Json>, path: &str) -> (r: Result<Vec<String>, String>)
    ensures
        match r {
            Ok(xs) => required_of(crate::json::opt_tree(v), path@) == Ok::<_, Seq<char>>(
                views(xs@),
            ),
            Err(e) => required_of(crate::json::opt_tree(v), path@) == Err::<Seq<Seq<char>>, _>(e@),
        },
{
    match v {
        None => {
            let none: Vec<String> = Vec::new();
            proof {
                assert(views(none@) =~= seq![]);
            }
            Ok(none)
        },
        Some(Json::Array(ts)) => {
            proof {
                assert(trees(ts@) =~= v->0@->Array_0);
            }
            match strings(ts) {
                Some(xs) => Ok(xs),
                None => Err(cat(path, ": `required` entries must be strings")),
            }
        },
        Some(_) => Err(cat(path, ": `required` must be an array")),
    }
}

fn compile_pattern(v: Option<&Json>, path: &str) -> (r: Result<Option<regex::Regex>, String>)
    ensures
        match r {
            Ok(Some(re)) => pattern_at(crate::json::opt_tree(v), path@) == Ok::<_, Seq<char>>(
                Some(pattern_of(re)),
            ),
            Ok(None) => pattern_at(crate::json::opt_tree(v), path@) == Ok::<_, Seq<char>>(
                None::<Seq<char>>,
            ),
            Err(e) => pattern_at(crate::json::opt_tree(v), path@) == Err::<Option<Seq<char>>, _>(
                e@,
            ),
        },
{
    match v {
        None => Ok(None),
        Some(Json::Str(p)) => match new_regex(p.as_str()) {
            Ok(re) => Ok(Some(re)),
            Err(e) => Err(cat3(path, ": invalid `pattern` regex: ", e.as_str())),
        },
        Some(_) => Err(cat(path, ": `pattern` must be a string")),
    }
}

fn compile_format(v: Option<&Json>, path: &str) -> (r: Result<Option<String>, String>)
    ensures
        match r {
            Ok(f) => format_at(crate::json::opt_tree(v), path@) == Ok::<_, Seq<char>>(
                text::opt_view(f),
            ),
            Err(e) => format_at(crate::json::opt_tree(v), path@) == Err::<Option<Seq<char>>, _>(e@),
        },
{
    match v {
        None => Ok(None),
        Some(Json::Str(f)) => {
            let name = f.as_str();
            if text::same(name, "date-time") || text::same(name, "date") || text::same(name, "uri")
                || text::same(name, "uuid") {
                Ok(Some(f.clone()))
            } else {
                Err(
                    text::cat4(
                        path,
                        ": unsupported `format` `",
                        name,
                        "` — supported: date-time, date, uri, uuid",
                    ),
                )
            }
        },
        Some(_) => Err(cat(path, ": `format` must be a string")),
    }
}

fn flag_of(v: Option<&Json>, otherwise: bool) -> (r: bool)
    ensures
        r == flag(crate::json::opt_tree(v), otherwise),
{
    match v {
        Some(Json::Bool(b)) => *b,
        _ => otherwise,
    }
}

fn bound_of(v: Option<&Json>) -> (r: Option<u64>)
    ensures
        opt_int(r) == bound(crate::json::opt_tree(v)),
{
    match v {
        Some(j) => j.as_u64(),
        None => None,
    }
}

fn number_of(v: Option<&Json>) -> (r: Option<Num>)
    ensures
        opt_num(r) == number(crate::json::opt_tree(v)),
{
    match v {
        Some(Json::Number(n)) => Some(n.copy()),
        _ => None,
    }
}

fn elements_of(v: Option<&Json>) -> (r: Option<Vec<Json>>)
    ensures
        match r {
            Some(x) => elements(crate::json::opt_tree(v)) == Some(trees(x@)),
            None => elements(crate::json::opt_tree(v)) is None,
        },
{
    match v {
        Some(Json::Array(x)) => {
            let mut out: Vec<Json> = Vec::new();
            let mut i: usize = 0;
            while i < x.len()
                invariant
                    i <= x.len(),
                    out.len() == i,
                    forall|k: int| 0 <= k < i ==> (#[trigger] out@[k])@ == x@[k]@,
                decreases x.len() - i,
            {
                out.push(x[i].copy());
                i += 1;
            }
            proof {
                assert(trees(out@) =~= v->0@->Array_0);
            }
            Some(out)
        },
        _ => None,
    }
}

spec fn property_views(v: Seq<(String, Node)>) -> Seq<(Seq<char>, NodeView)> {
    v.map_values(|e: (String, Node)| (e.0@, node_view(e.1)))
}

/// Compiles the schemas of properties, in order.
fn compile_properties(subs: &Vec<(String, Json)>, path: &str) -> (r: Result<
    Vec<(String, Node)>,
    String,
>)
    ensures
        match r {
            Ok(v) => compiled_all(field_views(subs@), path@) == Ok::<_, Seq<char>>(
                property_views(v@),
            ),
            Err(e) => compiled_all(field_views(subs@), path@) == Err::<
                Seq<(Seq<char>, NodeView)>,
                _,
            >(e@),
        },
    decreases subs, 0nat,
{
    let ghost all = field_views(subs@);
    let mut out: Vec<(String, Node)> = Vec::new();
    let mut i: usize = 0;
    proof {
        assert(property_views(out@) =~= seq![]);
        assert(all.take(0) =~= seq![]);
    }
    while i < subs.len()
        invariant
            i <= subs.len(),
            all == field_views(subs@),
            compiled_all(all.take(i as int), path@) == Ok::<_, Seq<char>>(property_views(out@)),
        decreases subs.len() - i,
    {
        proof {
            assert(all.take(i + 1).drop_last() =~= all.take(i as int));
            assert(all.take(i + 1).last() == all[i as int]);
            assert(decreases_to!(*subs => subs@));
            assert(decreases_to!(subs@ => subs@[i as int]));
            assert(decreases_to!(subs@[i as int] => subs@[i as int].1));
        }
        let name = subs[i].0.as_str();
        let sub_path = cat3(path, "/", name);
        match compile_node(&subs[i].1, sub_path.as_str()) {
            Ok(n) => {
                let ghost before = out@;
                out.push((subs[i].0.clone(), n));
                proof {
                    assert(property_views(out@) =~= property_views(before).push((name@, n@)));
                }
            },
            Err(e) => {
                proof {
                    lemma_compiled_all_fails(all, path@, i + 1, e@);
                }
                return Err(e);
            },
        }
        i += 1;
    }
    proof {
        assert(all.take(all.len() as int) =~= all);
    }
    Ok(out)
}

proof fn lemma_compiled_all_fails(
    subs: Seq<(Seq<char>, JsonView)>,
    path: Seq<char>,
    n: int,
    e: Seq<char>,
)
    requires
        0 <= n <= subs.len(),
        compiled_all(subs.take(n), path) == Err::<Seq<(Seq<char>, NodeView)>, _>(e),
    ensures
        compiled_all(subs, path) == Err::<Seq<(Seq<char>, NodeView)>, _>(e),
    decreases subs.len() - n,
{
    if n == subs.len() {
        assert(subs.take(n) =~= subs);
    } else {
        assert(subs.take(n + 1).drop_last() =~= subs.take(n));
        lemma_compiled_all_fails(subs, path, n + 1, e);
    }
}

/// Compiles one schema node; `path` says where it stands.
fn compile_node(schema: &Json, path: &str) -> (r: Result<Node, String>)
    ensures
        match r {
            Ok(n) => compiled(schema@, path@) == Ok::<_, Seq<char>>(n@),
            Err(e) => compiled(schema@, path@) == Err::<NodeView, _>(e@),
        },
    decreases schema, 1nat,
{
    let fields = match schema {
        Json::Object(fields) => fields,
        _ => {
            return Err(cat(path, ": a schema must be an object"));
        },
    };
    proof {
        assert(field_views(fields@) =~= schema@->Object_0);
    }
    if let Some(key) = unsupported_key(fields) {
        return Err(
            text::cat4(
                path,
                ": unsupported schema keyword `",
                key,
                "` — see memory::schema::SUPPORTED",
            ),
        );
    }
    let types = match compile_types(schema.get("type"), path) {
        Ok(types) => types,
        Err(e) => {
            return Err(e);
        },
    };
    let properties = match schema.get("properties") {
        None => {
            let none: Vec<(String, Node)> = Vec::new();
            proof {
                assert(property_views(none@) =~= seq![]);
            }
            none
        },
        Some(props) => match props {
            Json::Object(subs) => {
                proof {
                    assert(decreases_to!(*props => props->Object_0));
                    assert(field_views(subs@) =~= props@->Object_0);
                }
                match compile_properties(subs, path) {
                    Ok(v) => v,
                    Err(e) => {
                        return Err(e);
                    },
                }
            },
            _ => {
                return Err(cat(path, ": `properties` must be an object"));
            },
        },
    };
    let required = match compile_required(schema.get("required"), path) {
        Ok(required) => required,
        Err(e) => {
            return Err(e);
        },
    };
    let pattern = match compile_pattern(schema.get("pattern"), path) {
        Ok(pattern) => pattern,
        Err(e) => {
            return Err(e);
        },
    };
    let format = match compile_format(schema.get("format"), path) {
        Ok(format) => format,
        Err(e) => {
            return Err(e);
        },
    };
    let items = match schema.get("items") {
        None => None,
        Some(sub) => {
            let sub_path = cat(path, "/items");
            match compile_node(sub, sub_path.as_str()) {
                Ok(n) => Some(Box::new(n)),
                Err(e) => {
                    return Err(e);
                },
            }
        },
    };
    let constant = match schema.get("const") {
        Some(j) => Some(j.copy()),
        None => None,
    };
    let node = Node {
        types,
        properties,
        required,
        additional_properties: flag_of(schema.get("additionalProperties"), true),
        enumeration: elements_of(schema.get("enum")),
        constant,
        pattern,
        min_length: bound_of(schema.get("minLength")),
        max_length: bound_of(schema.get("maxLength")),
        minimum: number_of(schema.get("minimum")),
        maximum: number_of(schema.get("maximum")),
        min_items: bound_of(schema.get("minItems")),
        max_items: bound_of(schema.get("maxItems")),
        unique_items: flag_of(schema.get("uniqueItems"), false),
        items,
        format,
    };
    proof {
        assert(node@.properties =~= property_views(node.properties@));
    }
    Ok(node)
}

// ── Checking: model ──────────────────────────────────────────────────────────────────

/// Where a violation stands, for a reader.
pub open spec fn place(path: Seq<char>) -> Seq<char> {
    if path.len() == 0 {
        "<root>"@
    } else {
        trimmed_lead(path, Class::Dot)
    }
}

/// The JSON Schema type of a document.
pub open spec fn type_of(v: JsonView) -> Seq<char> {
    match v {
        JsonView::Null => "null"@,
        JsonView::Bool(_) => "boolean"@,
        JsonView::Number(n) => if n.int is Some {
            "integer"@
        } else {
            "number"@
        },
        JsonView::Str(_) => "string"@,
        JsonView::Array(_) => "array"@,
        JsonView::Object(_) => "object"@,
    }
}

/// Is a document of the type `t`? An integer is a number too.
pub open spec fn of_type(t: Seq<char>, v: JsonView) -> bool {
    if t == "number"@ {
        v is Number
    } else {
        t == type_of(v)
    }
}

pub open spec fn typed(types: Seq<Seq<char>>, v: JsonView) -> bool {
    types.len() == 0 || exists|i: int| 0 <= i < types.len() && of_type(#[trigger] types[i], v)
}

/// A document as an error shows it.
pub open spec fn shown(v: JsonView) -> Seq<char> {
    match v {
        JsonView::Str(s) => "`"@ + s + "`"@,
        _ => "`"@ + crate::json::compact(v) + "`"@,
    }
}

pub open spec fn all_shown(v: Seq<JsonView>) -> Seq<Seq<char>> {
    v.map_values(|j: JsonView| shown(j))
}

pub open spec fn among(v: Seq<JsonView>, x: JsonView) -> bool {
    exists|i: int| 0 <= i < v.len() && same(#[trigger] v[i], x)
}

/// Does `s` have the format `f`? A URI needs `://` and no white space.
pub open spec fn well_formatted(f: Seq<char>, s: Seq<char>) -> bool {
    if f == "date-time"@ {
        rfc3339_parses(s)
    } else if f == "date"@ {
        date_parses(s, "%Y-%m-%d"@)
    } else if f == "uuid"@ {
        uuid_parses(s)
    } else if f == "uri"@ {
        has_part(s, "://"@) && !has_white(s)
    } else {
        true
    }
}

/// One error, or none.
pub open spec fn when(wrong: bool, error: Seq<char>) -> Seq<Seq<char>> {
    if wrong {
        seq![error]
    } else {
        seq![]
    }
}

pub open spec fn value_errors(node: NodeView, v: JsonView, path: Seq<char>) -> Seq<Seq<char>> {
    (match node.enumeration {
        Some(allowed) => when(
            !among(allowed, v),
            place(path) + ": must be one of "@ + joined(all_shown(allowed), ", "@),
        ),
        None => seq![],
    }) + (match node.constant {
        Some(expected) => when(!same(v, expected), place(path) + ": must be "@ + shown(expected)),
        None => seq![],
    })
}

pub open spec fn string_errors(node: NodeView, s: Seq<char>, path: Seq<char>) -> Seq<Seq<char>> {
    (match node.min_length {
        Some(min) => when(
            s.len() < min,
            place(path) + ": must be at least "@ + decimal_of(min as nat) + " characters"@,
        ),
        None => seq![],
    }) + (match node.max_length {
        Some(max) => when(
            s.len() > max,
            place(path) + ": must be at most "@ + decimal_of(max as nat) + " characters"@,
        ),
        None => seq![],
    }) + (match node.pattern {
        Some(p) => when(!regex_matches(p, s), place(path) + ": must match /"@ + p + "/"@),
        None => seq![],
    }) + (match node.format {
        Some(f) => when(!well_formatted(f, s), place(path) + ": not a valid "@ + f),
        None => seq![],
    })
}

pub open spec fn number_errors(node: NodeView, n: NumView, path: Seq<char>) -> Seq<Seq<char>> {
    (match node.minimum {
        Some(min) => when(n.order < min.order, place(path) + ": must be >= "@ + min.float_text),
        None => seq![],
    }) + (match node.maximum {
        Some(max) => when(n.order > max.order, place(path) + ": must be <= "@ + max.float_text),
        None => seq![],
    })
}

/// Does an equal element stand before element `i`?
pub open spec fn repeated(items: Seq<JsonView>, i: int) -> bool {
    exists|j: int| 0 <= j < i && same(#[trigger] items[j], items[i])
}

/// The first element from `i` on that repeats an earlier one.
pub open spec fn first_repeated(items: Seq<JsonView>, i: int) -> Option<int>
    decreases items.len() - i,
{
    if i < 0 || i >= items.len() {
        None
    } else if repeated(items, i) {
        Some(i)
    } else {
        first_repeated(items, i + 1)
    }
}

pub open spec fn list_errors(node: NodeView, items: Seq<JsonView>, path: Seq<char>) -> Seq<
    Seq<char>,
> {
    (match node.min_items {
        Some(min) => when(
            items.len() < min,
            place(path) + ": must have at least "@ + decimal_of(min as nat) + " items"@,
        ),
        None => seq![],
    }) + (match node.max_items {
        Some(max) => when(
            items.len() > max,
            place(path) + ": must have at most "@ + decimal_of(max as nat) + " items"@,
        ),
        None => seq![],
    }) + (if node.unique_items {
        match first_repeated(items, 0) {
            Some(i) => seq![place(path) + ": duplicate item "@ + shown(items[i])],
            None => seq![],
        }
    } else {
        seq![]
    })
}

/// The fields that are required and missing, the first `n` of `required`.
pub open spec fn missing_errors(
    required: Seq<Seq<char>>,
    fields: Seq<(Seq<char>, JsonView)>,
    path: Seq<char>,
    n: nat,
) -> Seq<Seq<char>>
    decreases n,
{
    if n == 0 {
        seq![]
    } else {
        let name = required[n - 1];
        missing_errors(required, fields, path, (n - 1) as nat) + when(
            lookup(fields, name) is None,
            place(path) + ": missing required field `"@ + name + "`"@,
        )
    }
}

pub open spec fn known(properties: Seq<(Seq<char>, NodeView)>, name: Seq<char>) -> bool {
    exists|i: int| 0 <= i < properties.len() && (#[trigger] properties[i]).0 == name
}

/// The fields that the schema does not know, among the first `n`.
pub open spec fn unknown_errors(
    properties: Seq<(Seq<char>, NodeView)>,
    fields: Seq<(Seq<char>, JsonView)>,
    path: Seq<char>,
    n: nat,
) -> Seq<Seq<char>>
    decreases n,
{
    if n == 0 {
        seq![]
    } else {
        let name = fields[n - 1].0;
        unknown_errors(properties, fields, path, (n - 1) as nat) + when(
            !known(properties, name),
            place(path) + ": unknown field `"@ + name + "`"@,
        )
    }
}

/// Everything that is wrong with a document, in the order in which the schema is checked. Where
/// the type is wrong, that alone.
pub open spec fn violations(node: NodeView, v: JsonView, path: Seq<char>) -> Seq<Seq<char>>
    decreases node, 1nat,
{
    if !typed(node.types, v) {
        seq![
            place(path) + ": expected "@ + joined(node.types, " or "@) + ", got "@ + type_of(v),
        ]
    } else {
        value_errors(node, v, path) + shape_violations(node, v, path)
    }
}

/// What is wrong with a document, by the assertions that its type has.
pub open spec fn shape_violations(node: NodeView, v: JsonView, path: Seq<char>) -> Seq<Seq<char>>
    decreases node, 0nat,
{
    match v {
        JsonView::Str(s) => string_errors(node, s, path),
        JsonView::Number(n) => number_errors(node, n, path),
        JsonView::Array(items) => list_errors(node, items, path) + match node.items {
            Some(sub) => item_violations(*sub, items, path, items.len()),
            None => seq![],
        },
        JsonView::Object(fields) => missing_errors(
            node.required,
            fields,
            path,
            node.required.len(),
        ) + property_violations(node.properties, fields, path) + if node.additional_properties {
            seq![]
        } else {
            unknown_errors(node.properties, fields, path, fields.len())
        },
        _ => seq![],
    }
}

/// What is wrong with the first `n` elements of an array.
pub open spec fn item_violations(
    sub: NodeView,
    items: Seq<JsonView>,
    path: Seq<char>,
    n: nat,
) -> Seq<Seq<char>>
    decreases sub, n + 1,
{
    if n == 0 {
        seq![]
    } else {
        item_violations(sub, items, path, (n - 1) as nat) + violations(
            sub,
            items[n - 1],
            path + "["@ + decimal_of((n - 1) as nat) + "]"@,
        )
    }
}

/// What is wrong with the fields that the schema knows, in the schema's order.
pub open spec fn property_violations(
    properties: Seq<(Seq<char>, NodeView)>,
    fields: Seq<(Seq<char>, JsonView)>,
    path: Seq<char>,
) -> Seq<Seq<char>>
    decreases properties, 0nat,
{
    if properties.len() == 0 {
        seq![]
    } else {
        let last = properties.last();
        property_violations(properties.drop_last(), fields, path) + match lookup(fields, last.0) {
            Some(child) => violations(last.1, child, path + "."@ + last.0),
            None => seq![],
        }
    }
}

// ── Formats ──────────────────────────────────────────────────────────────────────────

/// Does `chrono::DateTime::parse_from_rfc3339` take the text?
pub uninterp spec fn rfc3339_parses(s: Seq<char>) -> bool;

/// Does `chrono::NaiveDate::parse_from_str` take the text under the format?
pub uninterp spec fn date_parses(s: Seq<char>, format: Seq<char>) -> bool;

/// Does `uuid::Uuid::parse_str` take the text?
pub uninterp spec fn uuid_parses(s: Seq<char>) -> bool;

/// `chrono::DateTime::parse_from_rfc3339`: is the text a date and time after RFC 3339?
#[verifier::external_body]
fn is_rfc3339(s: &str) -> (r: bool)
    ensures
        r == rfc3339_parses(s@),
{
    chrono::DateTime::parse_from_rfc3339(s).is_ok()
}

/// `chrono::NaiveDate::parse_from_str`: does the text read as a date under the format?
#[verifier::external_body]
fn is_date(s: &str, format: &str) -> (r: bool)
    ensures
        r == date_parses(s@, format@),
{
    chrono::NaiveDate::parse_from_str(s, format).is_ok()
}

/// `uuid::Uuid::parse_str`: is the text a UUID in one of the notations that it reads?
#[verifier::external_body]
fn is_uuid(s: &str) -> (r: bool)
    ensures
        r == uuid_parses(s@),
{
    uuid::Uuid::parse_str(s).is_ok()
}

// ── Checking ─────────────────────────────────────────────────────────────────────────

/// Adds one error to a list.
fn report(errors: &mut Vec<String>, error: String)
    ensures
        views(final(errors)@) == views(old(errors)@) + seq![error@],
{
    let ghost before = errors@;
    errors.push(error);
    proof {
        assert(views(errors@) =~= views(before) + seq![error@]);
    }
}

/// Where a violation stands, for a reader: the empty path is the document itself.
fn at(path: &str) -> (r: String)
    ensures
        r@ == place(path@),
{
    let cs = text::chars(path);
    if cs.len() == 0 {
        "<root>".to_owned()
    } else {
        text::string(text::trim_lead(&cs, Class::Dot))
    }
}

fn name_of_type(value: &Json) -> (r: &'static str)
    ensures
        r@ == type_of(value@),
{
    match value {
        Json::Null => "null",
        Json::Bool(_) => "boolean",
        Json::Number(n) => if n.int.is_some() {
            "integer"
        } else {
            "number"
        },
        Json::Str(_) => "string",
        Json::Array(_) => "array",
        Json::Object(_) => "object",
    }
}

fn type_matches(expected: &str, value: &Json) -> (r: bool)
    ensures
        r == of_type(expected@, value@),
{
    if text::same(expected, "number") {
        match value {
            Json::Number(_) => true,
            _ => false,
        }
    } else {
        text::same(expected, name_of_type(value))
    }
}

fn is_typed(types: &Vec<String>, value: &Json) -> (r: bool)
    ensures
        r == typed(views(types@), value@),
{
    if types.len() == 0 {
        return true;
    }
    let mut i: usize = 0;
    while i < types.len()
        invariant
            i <= types.len(),
            forall|k: int| 0 <= k < i ==> !of_type(#[trigger] views(types@)[k], value@),
        decreases types.len() - i,
    {
        if type_matches(types[i].as_str(), value) {
            proof {
                assert(of_type(views(types@)[i as int], value@));
            }
            return true;
        }
        i += 1;
    }
    false
}

fn render(value: &Json) -> (r: String)
    ensures
        r@ == shown(value@),
{
    match value {
        Json::Str(s) => cat3("`", s.as_str(), "`"),
        _ => cat3("`", value.to_text().as_str(), "`"),
    }
}

fn render_all(values: &Vec<Json>) -> (r: Vec<String>)
    ensures
        views(r@) == all_shown(trees(values@)),
{
    let mut out: Vec<String> = Vec::new();
    let mut i: usize = 0;
    while i < values.len()
        invariant
            i <= values.len(),
            out.len() == i,
            forall|k: int| 0 <= k < i ==> (#[trigger] out@[k])@ == shown(values@[k]@),
        decreases values.len() - i,
    {
        out.push(render(&values[i]));
        i += 1;
    }
    proof {
        assert(views(out@) =~= all_shown(trees(values@)));
    }
    out
}

/// Is a document among the first `n` of a list?
fn is_among(values: &Vec<Json>, n: usize, x: &Json) -> (r: bool)
    requires
        n <= values.len(),
    ensures
        r == exists|i: int| 0 <= i < n && same(#[trigger] trees(values@)[i], x@),
{
    let mut i: usize = 0;
    while i < n
        invariant
            i <= n <= values.len(),
            forall|k: int| 0 <= k < i ==> !same(#[trigger] trees(values@)[k], x@),
        decreases n - i,
    {
        if values[i].equal(x) {
            proof {
                assert(same(trees(values@)[i as int], x@));
            }
            return true;
        }
        i += 1;
    }
    false
}

fn check_value(node: &Node, value: &Json, path: &str, errors: &mut Vec<String>)
    ensures
        views(final(errors)@) == views(old(errors)@) + value_errors(node@, value@, path@),
{
    let ghost start = views(errors@);
    let ghost none = Seq::<Seq<char>>::empty();
    if let Some(allowed) = &node.enumeration {
        if !is_among(allowed, allowed.len(), value) {
            let all = text::join(&render_all(allowed), ", ");
            report(errors, cat3(at(path).as_str(), ": must be one of ", all.as_str()));
        }
    }
    if let Some(expected) = &node.constant {
        if !value.equal(expected) {
            report(errors, cat3(at(path).as_str(), ": must be ", render(expected).as_str()));
        }
    }
    proof {
        assert(views(errors@) =~= start + value_errors(node@, value@, path@));
    }
}

fn format_ok(format: &str, s: &str) -> (r: bool)
    ensures
        r == well_formatted(format@, s@),
{
    if text::same(format, "date-time") {
        is_rfc3339(s)
    } else if text::same(format, "date") {
        is_date(s, "%Y-%m-%d")
    } else if text::same(format, "uuid") {
        is_uuid(s)
    } else if text::same(format, "uri") {
        let cs = text::chars(s);
        text::contains_str(s, "://") && !text::contains_white(&cs)
    } else {
        true
    }
}

/// Checks a string. Its length is counted in characters.
fn check_string(node: &Node, s: &str, path: &str, errors: &mut Vec<String>)
    ensures
        views(final(errors)@) == views(old(errors)@) + string_errors(node@, s@, path@),
{
    let ghost start = views(errors@);
    let len: usize = text::chars(s).len();
    if let Some(min) = node.min_length {
        if (len as u64) < min {
            report(
                errors,
                text::cat4(
                    at(path).as_str(),
                    ": must be at least ",
                    text::decimal(min).as_str(),
                    " characters",
                ),
            );
        }
    }
    if let Some(max) = node.max_length {
        if len as u64 > max {
            report(
                errors,
                text::cat4(
                    at(path).as_str(),
                    ": must be at most ",
                    text::decimal(max).as_str(),
                    " characters",
                ),
            );
        }
    }
    if let Some(re) = &node.pattern {
        if !regex_is_match(re, s) {
            report(
                errors,
                text::cat4(at(path).as_str(), ": must match /", regex_text(re).as_str(), "/"),
            );
        }
    }
    if let Some(format) = &node.format {
        if !format_ok(format.as_str(), s) {
            report(errors, cat3(at(path).as_str(), ": not a valid ", format.as_str()));
        }
    }
    proof {
        assert(views(errors@) =~= start + string_errors(node@, s@, path@));
    }
}

fn check_number(node: &Node, n: &Num, path: &str, errors: &mut Vec<String>)
    ensures
        views(final(errors)@) == views(old(errors)@) + number_errors(node@, n@, path@),
{
    let ghost start = views(errors@);
    if let Some(min) = &node.minimum {
        if n.order() < min.order() {
            report(errors, cat3(at(path).as_str(), ": must be >= ", min.float_text.as_str()));
        }
    }
    if let Some(max) = &node.maximum {
        if n.order() > max.order() {
            report(errors, cat3(at(path).as_str(), ": must be <= ", max.float_text.as_str()));
        }
    }
    proof {
        assert(views(errors@) =~= start + number_errors(node@, n@, path@));
    }
}

/// The first element that repeats an earlier one.
fn find_repeated(items: &Vec<Json>) -> (r: Option<usize>)
    ensures
        match r {
            Some(i) => i < items.len() && first_repeated(trees(items@), 0) == Some(i as int),
            None => first_repeated(trees(items@), 0) is None,
        },
{
    let ghost all = trees(items@);
    let mut i: usize = 0;
    while i < items.len()
        invariant
            i <= items.len(),
            all == trees(items@),
            first_repeated(all, i as int) == first_repeated(all, 0),
        decreases items.len() - i,
    {
        if is_among(items, i, &items[i]) {
            return Some(i);
        }
        i += 1;
    }
    None
}

fn check_list(node: &Node, items: &Vec<Json>, path: &str, errors: &mut Vec<String>)
    ensures
        views(final(errors)@) == views(old(errors)@) + list_errors(node@, trees(items@), path@),
{
    let ghost start = views(errors@);
    if let Some(min) = node.min_items {
        if (items.len() as u64) < min {
            report(
                errors,
                text::cat4(
                    at(path).as_str(),
                    ": must have at least ",
                    text::decimal(min).as_str(),
                    " items",
                ),
            );
        }
    }
    if let Some(max) = node.max_items {
        if items.len() as u64 > max {
            report(
                errors,
                text::cat4(
                    at(path).as_str(),
                    ": must have at most ",
                    text::decimal(max).as_str(),
                    " items",
                ),
            );
        }
    }
    if node.unique_items {
        if let Some(i) = find_repeated(items) {
            report(errors, cat3(at(path).as_str(), ": duplicate item ", render(&items[i]).as_str()));
        }
    }
    proof {
        assert(views(errors@) =~= start + list_errors(node@, trees(items@), path@));
    }
}

fn check_required(
    required: &Vec<String>,
    value: &Json,
    path: &str,
    errors: &mut Vec<String>,
)
    requires
        value is Object,
    ensures
        views(final(errors)@) == views(old(errors)@) + missing_errors(
            views(required@),
            value@->Object_0,
            path@,
            required@.len(),
        ),
{
    let ghost start = views(errors@);
    let ghost fields = value@->Object_0;
    let mut i: usize = 0;
    proof {
        assert(start + missing_errors(views(required@), fields, path@, 0) =~= start);
    }
    while i < required.len()
        invariant
            i <= required.len(),
            value is Object,
            fields == value@->Object_0,
            views(errors@) == start + missing_errors(views(required@), fields, path@, i as nat),
        decreases required.len() - i,
    {
        let ghost before = views(errors@);
        let name = required[i].as_str();
        if value.get(name).is_none() {
            report(errors, text::cat4(at(path).as_str(), ": missing required field `", name, "`"));
        }
        i += 1;
        proof {
            let all = missing_errors(views(required@), fields, path@, i as nat);
            assert(views(required@)[i - 1] == name@);
            assert(views(errors@) =~= start + all);
        }
    }
}

fn is_known(properties: &Vec<(String, Node)>, name: &str) -> (r: bool)
    ensures
        r == known(property_views(properties@), name@),
{
    let mut i: usize = 0;
    while i < properties.len()
        invariant
            i <= properties.len(),
            forall|k: int| 0 <= k < i ==> (#[trigger] property_views(properties@)[k]).0 != name@,
        decreases properties.len() - i,
    {
        if text::same(properties[i].0.as_str(), name) {
            proof {
                assert(property_views(properties@)[i as int].0 == name@);
            }
            return true;
        }
        i += 1;
    }
    false
}

fn check_unknown(
    properties: &Vec<(String, Node)>,
    fields: &Vec<(String, Json)>,
    path: &str,
    errors: &mut Vec<String>,
)
    ensures
        views(final(errors)@) == views(old(errors)@) + unknown_errors(
            property_views(properties@),
            field_views(fields@),
            path@,
            fields@.len(),
        ),
{
    let ghost start = views(errors@);
    let ghost props = property_views(properties@);
    let ghost all = field_views(fields@);
    let mut i: usize = 0;
    proof {
        assert(start + unknown_errors(props, all, path@, 0) =~= start);
    }
    while i < fields.len()
        invariant
            i <= fields.len(),
            props == property_views(properties@),
            all == field_views(fields@),
            views(errors@) == start + unknown_errors(props, all, path@, i as nat),
        decreases fields.len() - i,
    {
        let name = fields[i].0.as_str();
        if !is_known(properties, name) {
            report(errors, text::cat4(at(path).as_str(), ": unknown field `", name, "`"));
        }
        i += 1;
        proof {
            assert(all[i - 1].0 == name@);
            assert(views(errors@) =~= start + unknown_errors(props, all, path@, i as nat));
        }
    }
}

fn check_items(node: &Node, items: &Vec<Json>, path: &str, errors: &mut Vec<String>)
    ensures
        views(final(errors)@) == views(old(errors)@) + item_violations(
            node@,
            trees(items@),
            path@,
            items@.len(),
        ),
    decreases node, 2nat, 0nat,
{
    let ghost start = views(errors@);
    let ghost all = trees(items@);
    let mut i: usize = 0;
    proof {
        assert(start + item_violations(node@, all, path@, 0) =~= start);
    }
    while i < items.len()
        invariant
            i <= items.len(),
            all == trees(items@),
            views(errors@) == start + item_violations(node@, all, path@, i as nat),
        decreases items.len() - i,
    {
        let sub_path = text::cat4(path, "[", text::decimal(i as u64).as_str(), "]");
        check(node, &items[i], sub_path.as_str(), errors);
        i += 1;
        proof {
            assert(views(errors@) =~= start + item_violations(node@, all, path@, i as nat));
        }
    }
}

fn check_properties(
    properties: &Vec<(String, Node)>,
    value: &Json,
    path: &str,
    errors: &mut Vec<String>,
)
    requires
        value is Object,
    ensures
        views(final(errors)@) == views(old(errors)@) + property_violations(
            property_views(properties@),
            value@->Object_0,
            path@,
        ),
    decreases properties, 0nat, 0nat,
{
    let ghost start = views(errors@);
    let ghost props = property_views(properties@);
    let ghost fields = value@->Object_0;
    let mut i: usize = 0;
    proof {
        assert(props.take(0) =~= seq![]);
        assert(start + property_violations(props.take(0), fields, path@) =~= start);
    }
    while i < properties.len()
        invariant
            i <= properties.len(),
            value is Object,
            fields == value@->Object_0,
            props == property_views(properties@),
            views(errors@) == start + property_violations(props.take(i as int), fields, path@),
        decreases properties.len() - i,
    {
        let name = properties[i].0.as_str();
        proof {
            assert(decreases_to!(*properties => properties@));
            assert(decreases_to!(properties@ => properties@[i as int]));
            assert(decreases_to!(properties@[i as int] => properties@[i as int].1));
            assert(props.take(i + 1).drop_last() =~= props.take(i as int));
            assert(props.take(i + 1).last() == props[i as int]);
        }
        if let Some(child) = value.get(name) {
            let sub_path = cat3(path, ".", name);
            check(&properties[i].1, child, sub_path.as_str(), errors);
        }
        i += 1;
        proof {
            assert(views(errors@) =~= start + property_violations(
                props.take(i as int),
                fields,
                path@,
            ));
        }
    }
    proof {
        assert(props.take(props.len() as int) =~= props);
    }
}

/// Checks a document against a schema node, adding everything that is wrong to `errors`.
fn check(node: &Node, value: &Json, path: &str, errors: &mut Vec<String>)
    ensures
        views(final(errors)@) == views(old(errors)@) + violations(node@, value@, path@),
    decreases node, 1nat, 0nat,
{
    let ghost start = views(errors@);
    if !is_typed(&node.types, value) {
        report(
            errors,
            cat5(
                at(path).as_str(),
                ": expected ",
                text::join(&node.types, " or ").as_str(),
                ", got ",
                name_of_type(value),
            ),
        );
        return ;
    }
    check_value(node, value, path, errors);
    check_shape(node, value, path, errors);
    proof {
        assert(views(errors@) =~= start + violations(node@, value@, path@));
    }
}

fn check_array(node: &Node, value: &Json, path: &str, errors: &mut Vec<String>)
    requires
        value is Array,
    ensures
        views(final(errors)@) == views(old(errors)@) + shape_violations(node@, value@, path@),
    decreases node, 0nat, 0nat,
{
    let ghost start = views(errors@);
    if let Json::Array(items) = value {
        proof {
            assert(trees(items@) =~= value@->Array_0);
        }
        check_list(node, items, path, errors);
        if let Some(sub) = &node.items {
            check_items(sub, items, path, errors);
        }
    }
    proof {
        assert(views(errors@) =~= start + shape_violations(node@, value@, path@));
    }
}

fn check_object(node: &Node, value: &Json, path: &str, errors: &mut Vec<String>)
    requires
        value is Object,
    ensures
        views(final(errors)@) == views(old(errors)@) + shape_violations(node@, value@, path@),
    decreases node, 0nat, 0nat,
{
    let ghost start = views(errors@);
    if let Json::Object(fields) = value {
        proof {
            assert(field_views(fields@) =~= value@->Object_0);
            assert(property_views(node.properties@) =~= node@.properties);
        }
        check_required(&node.required, value, path, errors);
        check_properties(&node.properties, value, path, errors);
        if !node.additional_properties {
            check_unknown(&node.properties, fields, path, errors);
        }
    }
    proof {
        assert(views(errors@) =~= start + shape_violations(node@, value@, path@));
    }
}

fn check_shape(node: &Node, value: &Json, path: &str, errors: &mut Vec<String>)
    ensures
        views(final(errors)@) == views(old(errors)@) + shape_violations(node@, value@, path@),
    decreases node, 0nat, 1nat,
{
    match value {
        Json::Str(s) => check_string(node, s.as_str(), path, errors),
        Json::Number(n) => check_number(node, n, path, errors),
        Json::Array(_) => check_array(node, value, path, errors),
        Json::Object(_) => check_object(node, value, path, errors),
        _ => {
            proof {
                assert(views(errors@) + shape_violations(node@, value@, path@) =~= views(errors@));
            }
        },
    }
}

/// A compiled schema.
#[derive(Debug)]
pub struct Validator {
    node: Node,
}

impl View for Validator {
    type V = NodeView;

    closed spec fn view(&self) -> NodeView {
        self.node@
    }
}

impl Validator {
    /// Compiles a schema document.
    ///
    /// Fails on a keyword or a `format` that is not supported, on a `pattern` that is no regular
    /// expression, and on a keyword whose value has the wrong shape.
    pub fn compile(schema: &Json) -> (r: Result<Validator, String>)
        ensures
            match r {
                Ok(v) => compiled(schema@, "#"@) == Ok::<_, Seq<char>>(v@),
                Err(e) => compiled(schema@, "#"@) == Err::<NodeView, _>(e@),
            },
    {
        match compile_node(schema, "#") {
            Ok(node) => Ok(Validator { node }),
            Err(e) => Err(e),
        }
    }

    /// Checks a document, and returns every violation rather than the first.
    pub fn validate(&self, value: &Json) -> (r: Vec<String>)
        ensures
            views(r@) == violations(self@, value@, seq![]),
    {
        let mut errors: Vec<String> = Vec::new();
        proof {
            reveal_strlit("");
            assert(views(errors@) + violations(self@, value@, seq![]) =~= violations(
                self@,
                value@,
                seq![],
            ));
            assert(""@ =~= seq![]);
        }
        check(&self.node, value, "", &mut errors);
        errors
    }
}

} // verus!
