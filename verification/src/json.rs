//! JSON documents as plain values.

use serde_json::Value;
use vstd::prelude::*;

use crate::text;

verus! {

broadcast use vstd::string::group_string_axioms;

/// What a JSON document is.
pub enum JsonView {
    Null,
    Bool(bool),
    Number(NumView),
    Str(Seq<char>),
    Array(Seq<JsonView>),
    Object(Seq<(Seq<char>, JsonView)>),
}

pub struct NumView {
    /// The value, for a number that is written as an integer.
    pub int: Option<int>,
    /// The place of the number among the double-precision numbers.
    pub order: int,
    /// The number as JSON writes it.
    pub text: Seq<char>,
    /// The double-precision number in decimal notation.
    pub float_text: Seq<char>,
}

/// The place of a double-precision number among all of them, from its bits: the sign, and the
/// magnitude below it. The two zeros have one place.
pub open spec fn order_of(bits: u64) -> int {
    if bits >= 0x8000_0000_0000_0000 {
        0x8000_0000_0000_0000 - bits
    } else {
        bits as int
    }
}

/// A JSON number.
#[derive(Debug)]
pub struct Num {
    /// The value, for a number that is written as an integer.
    pub int: Option<i128>,
    /// The bits of the double-precision number.
    pub bits: u64,
    /// The number as JSON writes it.
    pub text: String,
    /// The double-precision number in decimal notation.
    pub float_text: String,
}

impl Num {
    /// The place of the number among the double-precision numbers.
    pub fn order(&self) -> (r: i128)
        ensures
            r == self@.order,
    {
        if self.bits >= 0x8000_0000_0000_0000 {
            0x8000_0000_0000_0000i128 - self.bits as i128
        } else {
            self.bits as i128
        }
    }

    pub fn copy(&self) -> (r: Num)
        ensures
            r@ == self@,
    {
        Num {
            int: self.int,
            bits: self.bits,
            text: self.text.clone(),
            float_text: self.float_text.clone(),
        }
    }

    /// Are two numbers equal? An integer never equals a number that is not written as one.
    pub fn equal(&self, other: &Num) -> (r: bool)
        ensures
            r == same_number(self@, other@),
    {
        match (self.int, other.int) {
            (Some(a), Some(b)) => a == b,
            (None, None) => self.order() == other.order(),
            _ => false,
        }
    }
}

pub open spec fn same_number(a: NumView, b: NumView) -> bool {
    match (a.int, b.int) {
        (Some(x), Some(y)) => x == y,
        (None, None) => a.order == b.order,
        _ => false,
    }
}

/// A JSON document. The keys of an object are distinct.
#[derive(Debug)]
pub enum Json {
    Null,
    Bool(bool),
    Number(Num),
    Str(String),
    Array(Vec<Json>),
    Object(Vec<(String, Json)>),
}

impl View for Num {
    type V = NumView;

    open spec fn view(&self) -> NumView {
        NumView {
            int: match self.int {
                Some(i) => Some(i as int),
                None => None,
            },
            order: order_of(self.bits),
            text: self.text@,
            float_text: self.float_text@,
        }
    }
}

/// The view of a document.
pub open spec fn tree(j: Json) -> JsonView
    decreases j,
{
    match j {
        Json::Null => JsonView::Null,
        Json::Bool(b) => JsonView::Bool(b),
        Json::Number(n) => JsonView::Number(n@),
        Json::Str(s) => JsonView::Str(s@),
        Json::Array(v) => JsonView::Array(
            Seq::new(
                v@.len(),
                |i: int|
                    if 0 <= i < v@.len() {
                        tree(v@[i])
                    } else {
                        JsonView::Null
                    },
            ),
        ),
        Json::Object(v) => JsonView::Object(
            Seq::new(
                v@.len(),
                |i: int|
                    if 0 <= i < v@.len() {
                        (v@[i].0@, tree(v@[i].1))
                    } else {
                        (seq![], JsonView::Null)
                    },
            ),
        ),
    }
}

impl View for Json {
    type V = JsonView;

    open spec fn view(&self) -> JsonView {
        tree(*self)
    }
}

// ── Reading ──────────────────────────────────────────────────────────────────────────

/// The value under `key`.
pub open spec fn lookup(items: Seq<(Seq<char>, JsonView)>, key: Seq<char>) -> Option<JsonView>
    decreases items.len(),
{
    if items.len() == 0 {
        None
    } else if items[0].0 == key {
        Some(items[0].1)
    } else {
        lookup(items.drop_first(), key)
    }
}

/// A value is found exactly where its key stands.
pub proof fn lemma_lookup(items: Seq<(Seq<char>, JsonView)>, key: Seq<char>)
    ensures
        lookup(items, key) is Some <==> exists|i: int|
            0 <= i < items.len() && (#[trigger] items[i]).0 == key,
        lookup(items, key) is Some ==> exists|i: int|
            0 <= i < items.len() && (#[trigger] items[i]) == (key, lookup(items, key)->0),
    decreases items.len(),
{
    if items.len() > 0 && items[0].0 != key {
        let rest = items.drop_first();
        lemma_lookup(rest, key);
        if lookup(rest, key) is Some {
            let i = choose|i: int|
                0 <= i < rest.len() && (#[trigger] rest[i]) == (key, lookup(rest, key)->0);
            assert(items[i + 1] == rest[i]);
        } else {
            assert forall|i: int| 0 <= i < items.len() implies (#[trigger] items[i]).0 != key by {
                if i > 0 {
                    assert(rest[i - 1] == items[i]);
                }
            }
        }
    } else if items.len() > 0 {
        assert(items[0] == (key, lookup(items, key)->0));
    }
}

impl JsonView {
    /// The field `key` of an object.
    pub open spec fn field(self, key: Seq<char>) -> Option<JsonView> {
        match self {
            JsonView::Object(items) => lookup(items, key),
            _ => None,
        }
    }

    pub open spec fn as_text(self) -> Option<Seq<char>> {
        match self {
            JsonView::Str(s) => Some(s),
            _ => None,
        }
    }

    pub open spec fn boolean(self) -> Option<bool> {
        match self {
            JsonView::Bool(b) => Some(b),
            _ => None,
        }
    }

    pub open spec fn array(self) -> Option<Seq<JsonView>> {
        match self {
            JsonView::Array(v) => Some(v),
            _ => None,
        }
    }

    /// The value of a number that is written as an integer and not negative.
    pub open spec fn unsigned(self) -> Option<int> {
        match self {
            JsonView::Number(n) => match n.int {
                Some(i) if 0 <= i <= u64::MAX => Some(i),
                _ => None,
            },
            _ => None,
        }
    }
}

/// A field of a field, and so on.
pub open spec fn opt_field(v: Option<JsonView>, key: Seq<char>) -> Option<JsonView> {
    match v {
        Some(j) => j.field(key),
        None => None,
    }
}

/// The view of an optional document.
pub open spec fn opt_tree(v: Option<&Json>) -> Option<JsonView> {
    match v {
        Some(j) => Some(j@),
        None => None,
    }
}

/// Are two documents equal? The order of an object's fields does not matter.
pub open spec fn same(a: JsonView, b: JsonView) -> bool
    decreases a,
{
    match (a, b) {
        (JsonView::Null, JsonView::Null) => true,
        (JsonView::Bool(x), JsonView::Bool(y)) => x == y,
        (JsonView::Number(x), JsonView::Number(y)) => same_number(x, y),
        (JsonView::Str(x), JsonView::Str(y)) => x == y,
        (JsonView::Array(x), JsonView::Array(y)) => {
            &&& x.len() == y.len()
            &&& forall|i: int| 0 <= i < x.len() ==> same(#[trigger] x[i], y[i])
        },
        (JsonView::Object(x), JsonView::Object(y)) => {
            &&& x.len() == y.len()
            &&& forall|i: int|
                0 <= i < x.len() ==> match lookup(y, (#[trigger] x[i]).0) {
                    Some(w) => same(x[i].1, w),
                    None => false,
                }
        },
        _ => false,
    }
}

impl Json {
    /// The field `key` of an object.
    pub fn get(&self, key: &str) -> (r: Option<&Json>)
        ensures
            opt_tree(r) == self@.field(key@),
            r is Some ==> decreases_to!(*self => *r->0),
    {
        match self {
            Json::Object(items) => {
                let mut i: usize = 0;
                let ghost all = self@->Object_0;
                proof {
                    assert(all.skip(0) =~= all);
                }
                while i < items.len()
                    invariant
                        i <= items.len(),
                        *self == Json::Object(*items),
                        all == self@->Object_0,
                        all.len() == items.len(),
                        lookup(all.skip(i as int), key@) == lookup(all, key@),
                    decreases items.len() - i,
                {
                    proof {
                        assert(all[i as int] == (items@[i as int].0@, tree(items@[i as int].1)));
                        assert(all.skip(i as int)[0] == all[i as int]);
                        assert(all.skip(i as int).drop_first() =~= all.skip(i + 1));
                    }
                    if text::same(items[i].0.as_str(), key) {
                        proof {
                            assert(decreases_to!(*self => self->Object_0));
                            assert(decreases_to!(self->Object_0 => self->Object_0@));
                            assert(decreases_to!(items@ => items@[i as int]));
                            assert(decreases_to!(items@[i as int] => items@[i as int].1));
                        }
                        return Some(&items[i].1);
                    }
                    i += 1;
                }
                None
            },
            _ => None,
        }
    }

    pub fn as_str(&self) -> (r: Option<&str>)
        ensures
            text::opt_str_view(r) == self@.as_text(),
    {
        match self {
            Json::Str(s) => Some(s.as_str()),
            _ => None,
        }
    }

    pub fn as_bool(&self) -> (r: Option<bool>)
        ensures
            r == self@.boolean(),
    {
        match self {
            Json::Bool(b) => Some(*b),
            _ => None,
        }
    }

    /// The value of a number that is written as an integer and not negative.
    pub fn as_u64(&self) -> (r: Option<u64>)
        ensures
            match r {
                Some(n) => self@.unsigned() == Some(n as int),
                None => self@.unsigned() is None,
            },
    {
        match self {
            Json::Number(n) => match n.int {
                Some(i) => if 0 <= i && i <= u64::MAX as i128 {
                    Some(i as u64)
                } else {
                    None
                },
                None => None,
            },
            _ => None,
        }
    }

    /// Are two documents equal?
    pub fn equal(&self, other: &Json) -> (r: bool)
        ensures
            r == same(self@, other@),
        decreases self,
    {
        match (self, other) {
            (Json::Null, Json::Null) => true,
            (Json::Bool(x), Json::Bool(y)) => *x == *y,
            (Json::Number(x), Json::Number(y)) => x.equal(y),
            (Json::Str(x), Json::Str(y)) => *x == *y,
            (Json::Array(x), Json::Array(y)) => {
                if x.len() != y.len() {
                    return false;
                }
                let mut i: usize = 0;
                while i < x.len()
                    invariant
                        i <= x.len(),
                        x.len() == y.len(),
                        *self == Json::Array(*x),
                        *other == Json::Array(*y),
                        forall|k: int|
                            0 <= k < i ==> same(#[trigger] self@->Array_0[k], other@->Array_0[k]),
                    decreases x.len() - i,
                {
                    proof {
                        assert(decreases_to!(*self => self->Array_0));
                        assert(decreases_to!(self->Array_0 => self->Array_0@));
                        assert(decreases_to!(x@ => x@[i as int]));
                        assert(self@->Array_0[i as int] == tree(x@[i as int]));
                        assert(other@->Array_0[i as int] == tree(y@[i as int]));
                    }
                    if !x[i].equal(&y[i]) {
                        return false;
                    }
                    i += 1;
                }
                true
            },
            (Json::Object(x), Json::Object(y)) => {
                if x.len() != y.len() {
                    return false;
                }
                let mut i: usize = 0;
                while i < x.len()
                    invariant
                        i <= x.len(),
                        x.len() == y.len(),
                        *self == Json::Object(*x),
                        *other == Json::Object(*y),
                        forall|k: int|
                            0 <= k < i ==> match lookup(
                                other@->Object_0,
                                (#[trigger] self@->Object_0[k]).0,
                            ) {
                                Some(w) => same(self@->Object_0[k].1, w),
                                None => false,
                            },
                    decreases x.len() - i,
                {
                    proof {
                        assert(decreases_to!(*self => self->Object_0));
                        assert(decreases_to!(self->Object_0 => self->Object_0@));
                        assert(decreases_to!(x@ => x@[i as int]));
                        assert(decreases_to!(x@[i as int] => x@[i as int].1));
                        assert(self@->Object_0[i as int] == (x@[i as int].0@, tree(x@[i as int].1)));
                    }
                    match other.get(x[i].0.as_str()) {
                        Some(w) => {
                            if !x[i].1.equal(w) {
                                return false;
                            }
                        },
                        None => {
                            return false;
                        },
                    }
                    i += 1;
                }
                true
            },
            _ => false,
        }
    }

    pub fn copy(&self) -> (r: Json)
        ensures
            r@ == self@,
        decreases self,
    {
        match self {
            Json::Null => Json::Null,
            Json::Bool(b) => Json::Bool(*b),
            Json::Number(n) => Json::Number(n.copy()),
            Json::Str(s) => Json::Str(s.clone()),
            Json::Array(v) => {
                let mut out: Vec<Json> = Vec::new();
                let mut i: usize = 0;
                while i < v.len()
                    invariant
                        i <= v.len(),
                        out.len() == i,
                        *self == Json::Array(*v),
                        forall|k: int| 0 <= k < i ==> tree(#[trigger] out@[k]) == tree(v@[k]),
                    decreases v.len() - i,
                {
                    proof {
                        assert(decreases_to!(*self => self->Array_0));
                        assert(decreases_to!(self->Array_0 => self->Array_0@));
                        assert(decreases_to!(v@ => v@[i as int]));
                    }
                    out.push(v[i].copy());
                    i += 1;
                }
                let r = Json::Array(out);
                proof {
                    assert(tree(r)->Array_0 =~= tree(*self)->Array_0);
                }
                r
            },
            Json::Object(v) => {
                let mut out: Vec<(String, Json)> = Vec::new();
                let mut i: usize = 0;
                while i < v.len()
                    invariant
                        i <= v.len(),
                        out.len() == i,
                        *self == Json::Object(*v),
                        forall|k: int|
                            0 <= k < i ==> tree((#[trigger] out@[k]).1) == tree(v@[k].1) && out@[k].0@
                                == v@[k].0@,
                    decreases v.len() - i,
                {
                    proof {
                        assert(decreases_to!(*self => self->Object_0));
                        assert(decreases_to!(self->Object_0 => self->Object_0@));
                        assert(decreases_to!(v@ => v@[i as int]));
                        assert(decreases_to!(v@[i as int] => v@[i as int].1));
                    }
                    out.push((v[i].0.clone(), v[i].1.copy()));
                    i += 1;
                }
                let r = Json::Object(out);
                proof {
                    assert(tree(r)->Object_0 =~= tree(*self)->Object_0);
                }
                r
            },
        }
    }
}

impl Clone for Num {
    fn clone(&self) -> (r: Num)
        ensures
            r@ == self@,
    {
        self.copy()
    }
}

impl Clone for Json {
    fn clone(&self) -> (r: Json)
        ensures
            r@ == self@,
    {
        self.copy()
    }
}

// ── Writing ──────────────────────────────────────────────────────────────────────────

/// A lower-case hexadecimal digit.
pub open spec fn hex_digit(d: int) -> char {
    if d < 10 {
        ('0' as int + d) as char
    } else {
        ('a' as int + d - 10) as char
    }
}

/// One character inside a JSON string.
pub open spec fn escaped(c: char) -> Seq<char> {
    if c == '"' {
        seq!['\\', '"']
    } else if c == '\\' {
        seq!['\\', '\\']
    } else if c == '\u{8}' {
        seq!['\\', 'b']
    } else if c == '\t' {
        seq!['\\', 't']
    } else if c == '\n' {
        seq!['\\', 'n']
    } else if c == '\u{c}' {
        seq!['\\', 'f']
    } else if c == '\r' {
        seq!['\\', 'r']
    } else if c <= '\u{1f}' {
        seq!['\\', 'u', '0', '0', hex_digit(c as int / 16), hex_digit(c as int % 16)]
    } else {
        seq![c]
    }
}

pub open spec fn all_escaped(s: Seq<char>) -> Seq<char>
    decreases s.len(),
{
    if s.len() == 0 {
        seq![]
    } else {
        all_escaped(s.drop_last()) + escaped(s.last())
    }
}

/// A JSON string literal.
pub open spec fn quoted(s: Seq<char>) -> Seq<char> {
    seq!['"'] + all_escaped(s) + seq!['"']
}

/// `serde_json::to_string` on a `str`: the text between quotation marks, with quotation marks,
/// backslashes and control characters escaped. It has no way to fail on a string.
#[verifier::external_body]
fn quote(s: &str) -> (r: String)
    ensures
        r@ == quoted(s@),
{
    serde_json::to_string(s).unwrap_or_default()
}

/// A document in JSON notation, without white space between its tokens.
pub open spec fn compact(v: JsonView) -> Seq<char>
    decreases v,
{
    match v {
        JsonView::Null => "null"@,
        JsonView::Bool(b) => if b {
            "true"@
        } else {
            "false"@
        },
        JsonView::Number(n) => n.text,
        JsonView::Str(s) => quoted(s),
        JsonView::Array(x) => "["@ + text::joined(element_texts(x), ","@) + "]"@,
        JsonView::Object(x) => "{"@ + text::joined(field_texts(x), ","@) + "}"@,
    }
}

/// The elements of an array in JSON notation.
pub open spec fn element_texts(x: Seq<JsonView>) -> Seq<Seq<char>>
    decreases x,
{
    Seq::new(
        x.len(),
        |i: int|
            if 0 <= i < x.len() {
                compact(x[i])
            } else {
                seq![]
            },
    )
}

/// The fields of an object in JSON notation.
pub open spec fn field_texts(x: Seq<(Seq<char>, JsonView)>) -> Seq<Seq<char>>
    decreases x,
{
    Seq::new(
        x.len(),
        |i: int|
            if 0 <= i < x.len() {
                quoted(x[i].0) + ":"@ + compact(x[i].1)
            } else {
                seq![]
            },
    )
}

impl Json {
    /// The document in JSON notation.
    pub fn to_text(&self) -> (r: String)
        ensures
            r@ == compact(self@),
        decreases self,
    {
        match self {
            Json::Null => "null".to_owned(),
            Json::Bool(b) => if *b {
                "true".to_owned()
            } else {
                "false".to_owned()
            },
            Json::Number(n) => n.text.clone(),
            Json::Str(s) => quote(s.as_str()),
            Json::Array(x) => {
                let mut parts: Vec<String> = Vec::new();
                let mut i: usize = 0;
                while i < x.len()
                    invariant
                        i <= x.len(),
                        parts.len() == i,
                        *self == Json::Array(*x),
                        forall|k: int|
                            0 <= k < i ==> (#[trigger] parts@[k])@ == compact(self@->Array_0[k]),
                    decreases x.len() - i,
                {
                    proof {
                        assert(decreases_to!(*self => self->Array_0));
                        assert(decreases_to!(self->Array_0 => self->Array_0@));
                        assert(decreases_to!(x@ => x@[i as int]));
                        assert(self@->Array_0[i as int] == tree(x@[i as int]));
                    }
                    parts.push(x[i].to_text());
                    i += 1;
                }
                let mut out = "[".to_owned();
                out.append(text::join(&parts, ",").as_str());
                out.append("]");
                proof {
                    assert(text::views(parts@) =~= element_texts(self@->Array_0));
                }
                out
            },
            Json::Object(x) => {
                let mut parts: Vec<String> = Vec::new();
                let mut i: usize = 0;
                while i < x.len()
                    invariant
                        i <= x.len(),
                        parts.len() == i,
                        *self == Json::Object(*x),
                        forall|k: int|
                            0 <= k < i ==> (#[trigger] parts@[k])@ == quoted(self@->Object_0[k].0)
                                + ":"@ + compact(self@->Object_0[k].1),
                    decreases x.len() - i,
                {
                    proof {
                        assert(decreases_to!(*self => self->Object_0));
                        assert(decreases_to!(self->Object_0 => self->Object_0@));
                        assert(decreases_to!(x@ => x@[i as int]));
                        assert(decreases_to!(x@[i as int] => x@[i as int].1));
                        assert(self@->Object_0[i as int] == (x@[i as int].0@, tree(x@[i as int].1)));
                    }
                    let mut part = quote(x[i].0.as_str());
                    part.append(":");
                    part.append(x[i].1.to_text().as_str());
                    parts.push(part);
                    i += 1;
                }
                let mut out = "{".to_owned();
                out.append(text::join(&parts, ",").as_str());
                out.append("}");
                proof {
                    assert(text::views(parts@) =~= field_texts(self@->Object_0));
                }
                out
            },
        }
    }
}

// ── Building ─────────────────────────────────────────────────────────────────────────

/// A string value.
pub fn string(s: &str) -> (r: Json)
    ensures
        r@ == JsonView::Str(s@),
{
    Json::Str(s.to_owned())
}

/// An array of strings.
pub fn strings(v: &Vec<String>) -> (r: Json)
    ensures
        r@ == JsonView::Array(string_views(text::views(v@))),
{
    let mut out: Vec<Json> = Vec::new();
    let mut i: usize = 0;
    while i < v.len()
        invariant
            i <= v.len(),
            out.len() == i,
            forall|k: int| 0 <= k < i ==> (#[trigger] out@[k])@ == JsonView::Str(v@[k]@),
        decreases v.len() - i,
    {
        out.push(Json::Str(v[i].clone()));
        i += 1;
    }
    let r = Json::Array(out);
    proof {
        assert(tree(r)->Array_0 =~= string_views(text::views(v@)));
    }
    r
}

pub open spec fn string_views(v: Seq<Seq<char>>) -> Seq<JsonView> {
    v.map_values(|s: Seq<char>| JsonView::Str(s))
}

/// The views of fields.
pub open spec fn field_views(v: Seq<(String, Json)>) -> Seq<(Seq<char>, JsonView)> {
    v.map_values(|e: (String, Json)| (e.0@, e.1@))
}

/// An object of fields with distinct keys.
pub fn object(fields: Vec<(String, Json)>) -> (r: Json)
    ensures
        r@ == JsonView::Object(field_views(fields@)),
{
    let ghost v = field_views(fields@);
    let r = Json::Object(fields);
    proof {
        assert(tree(r)->Object_0 =~= v);
    }
    r
}

pub fn object1(k: &str, v: Json) -> (r: Json)
    ensures
        r@ == JsonView::Object(seq![(k@, v@)]),
{
    let mut fields: Vec<(String, Json)> = Vec::new();
    fields.push((k.to_owned(), v));
    proof {
        assert(field_views(fields@) =~= seq![(k@, v@)]);
    }
    object(fields)
}

pub fn object2(k: &str, v: Json, k2: &str, v2: Json) -> (r: Json)
    ensures
        r@ == JsonView::Object(seq![(k@, v@), (k2@, v2@)]),
{
    let mut fields: Vec<(String, Json)> = Vec::new();
    fields.push((k.to_owned(), v));
    fields.push((k2.to_owned(), v2));
    proof {
        assert(field_views(fields@) =~= seq![(k@, v@), (k2@, v2@)]);
    }
    object(fields)
}

pub fn object3(k: &str, v: Json, k2: &str, v2: Json, k3: &str, v3: Json) -> (r: Json)
    ensures
        r@ == JsonView::Object(seq![(k@, v@), (k2@, v2@), (k3@, v3@)]),
{
    let mut fields: Vec<(String, Json)> = Vec::new();
    fields.push((k.to_owned(), v));
    fields.push((k2.to_owned(), v2));
    fields.push((k3.to_owned(), v3));
    proof {
        assert(field_views(fields@) =~= seq![(k@, v@), (k2@, v2@), (k3@, v3@)]);
    }
    object(fields)
}

pub fn object4(
    k: &str,
    v: Json,
    k2: &str,
    v2: Json,
    k3: &str,
    v3: Json,
    k4: &str,
    v4: Json,
) -> (r: Json)
    ensures
        r@ == JsonView::Object(seq![(k@, v@), (k2@, v2@), (k3@, v3@), (k4@, v4@)]),
{
    let mut fields: Vec<(String, Json)> = Vec::new();
    fields.push((k.to_owned(), v));
    fields.push((k2.to_owned(), v2));
    fields.push((k3.to_owned(), v3));
    fields.push((k4.to_owned(), v4));
    proof {
        assert(field_views(fields@) =~= seq![(k@, v@), (k2@, v2@), (k3@, v3@), (k4@, v4@)]);
    }
    object(fields)
}

/// The fields of an object with one set: replaced where it stands, added at the end otherwise.
pub open spec fn with_field(
    items: Seq<(Seq<char>, JsonView)>,
    key: Seq<char>,
    value: JsonView,
) -> Seq<(Seq<char>, JsonView)>
    decreases items.len(),
{
    if items.len() == 0 {
        seq![(key, value)]
    } else if items[0].0 == key {
        items.update(0, (key, value))
    } else {
        seq![items[0]] + with_field(items.drop_first(), key, value)
    }
}

/// What is set is found, and nothing else changes.
pub proof fn lemma_with_field(
    items: Seq<(Seq<char>, JsonView)>,
    key: Seq<char>,
    value: JsonView,
    other: Seq<char>,
)
    ensures
        lookup(with_field(items, key, value), other) == if other == key {
            Some(value)
        } else {
            lookup(items, other)
        },
    decreases items.len(),
{
    let set = with_field(items, key, value);
    if items.len() == 0 {
        assert(set.drop_first() =~= items);
    } else if items[0].0 == key {
        assert(set.drop_first() =~= items.drop_first());
    } else {
        lemma_with_field(items.drop_first(), key, value, other);
        assert(set.drop_first() =~= with_field(items.drop_first(), key, value));
    }
}

/// Sets a field among fields.
pub fn set_field(fields: &mut Vec<(String, Json)>, key: &str, value: Json)
    ensures
        field_views(final(fields)@) == with_field(field_views(old(fields)@), key@, value@),
{
    let ghost all = field_views(fields@);
    let mut i: usize = 0;
    proof {
        assert(all.skip(0) =~= all);
        assert(all.take(0) + with_field(all, key@, value@) =~= with_field(all, key@, value@));
    }
    while i < fields.len()
        invariant
            i <= fields.len(),
            all == field_views(old(fields)@),
            all == field_views(fields@),
            all.take(i as int) + with_field(all.skip(i as int), key@, value@) == with_field(
                all,
                key@,
                value@,
            ),
        decreases fields.len() - i,
    {
        let ghost rest = all.skip(i as int);
        proof {
            assert(rest[0] == all[i as int]);
            assert(rest.drop_first() =~= all.skip(i + 1));
        }
        if text::same(fields[i].0.as_str(), key) {
            let ghost before = fields@;
            fields.set(i, (key.to_owned(), value));
            proof {
                assert(field_views(fields@) =~= all.update(i as int, (key@, value@)));
                assert(all.take(i as int) + rest.update(0, (key@, value@)) =~= all.update(
                    i as int,
                    (key@, value@),
                ));
            }
            return ;
        }
        proof {
            assert(all.take(i as int) + (seq![rest[0]] + with_field(all.skip(i + 1), key@, value@))
                =~= all.take(i + 1) + with_field(all.skip(i + 1), key@, value@));
        }
        i += 1;
    }
    let ghost before = fields@;
    fields.push((key.to_owned(), value));
    proof {
        assert(all.skip(i as int) =~= seq![]);
        assert(all.take(i as int) =~= all);
        assert(field_views(fields@) =~= all + seq![(key@, value@)]);
    }
}

/// What `serde_json::Value::from` makes of an unsigned integer.
pub uninterp spec fn integer_value(n: u64) -> Value;

/// `serde_json::Value::from` on an unsigned integer: a number that is written as that integer.
#[verifier::external_body]
fn number_value(n: u64) -> (r: Value)
    ensures
        r == integer_value(n),
        match json_contents(r) {
            JsonView::Number(v) => v.int == Some(n as int) && v.text == text::decimal_of(n as nat),
            _ => false,
        },
{
    Value::from(n)
}

/// The number of an unsigned integer.
pub open spec fn integer_of(n: u64) -> JsonView {
    json_contents(integer_value(n))
}

/// The number of an unsigned integer.
pub fn integer(n: u64) -> (r: Json)
    ensures
        r@ == integer_of(n),
        match r@ {
            JsonView::Number(v) => v.int == Some(n as int) && v.text == text::decimal_of(n as nat),
            _ => false,
        },
{
    contents(&number_value(n))
}

// ── Parsing ──────────────────────────────────────────────────────────────────────────

/// `serde_json::Value`, a document as the parser hands it out.
#[verifier::external_type_specification]
#[verifier::external_body]
pub struct ExValue(serde_json::Value);

/// What `serde_json::from_str` gives for a text: a document, or nothing for a text that is not
/// JSON or nests too deeply.
pub uninterp spec fn json_value(text: Seq<char>) -> Option<Value>;

/// What a `serde_json::Value` holds.
pub uninterp spec fn json_contents(value: Value) -> JsonView;

/// `serde_json::from_str` into a `serde_json::Value`; which error it met is not kept.
#[verifier::external_body]
fn parse_value(text: &str) -> (r: Option<Value>)
    ensures
        r == json_value(text@),
{
    serde_json::from_str(text).ok()
}

/// The variants of `serde_json::Value`, node by node: an object's fields come in the order in
/// which its map iterates, a number keeps what `as_i128` and `as_f64` say of it and both of its
/// texts.
#[verifier::external_body]
fn contents(v: &Value) -> (r: Json)
    ensures
        r@ == json_contents(*v),
{
    match v {
        Value::Null => Json::Null,
        Value::Bool(b) => Json::Bool(*b),
        Value::Number(n) => Json::Number(Num {
            int: n.as_i128(),
            bits: n.as_f64().map(|x| x.to_bits()).unwrap_or_default(),
            text: n.to_string(),
            float_text: n.as_f64().map(|x| x.to_string()).unwrap_or_default(),
        }),
        Value::String(s) => Json::Str(s.clone()),
        Value::Array(a) => Json::Array(a.iter().map(contents).collect()),
        Value::Object(o) => Json::Object(o.iter().map(|e| (e.0.clone(), contents(e.1))).collect()),
    }
}

/// The document that a text holds.
pub open spec fn parsed(text: Seq<char>) -> Option<JsonView> {
    match json_value(text) {
        Some(v) => Some(json_contents(v)),
        None => None,
    }
}

/// Parses a JSON text.
pub fn parse(text: &str) -> (r: Option<Json>)
    ensures
        match r {
            Some(j) => parsed(text@) == Some(j@),
            None => parsed(text@) is None,
        },
{
    match parse_value(text) {
        Some(v) => Some(contents(&v)),
        None => None,
    }
}

} // verus!
