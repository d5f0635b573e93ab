//! Typed business facts: the vocabulary of kinds, the grammar of their subjects, and the schema
//! that the metadata of each kind is held to.
//!
//! The subject grammar (`incident:<service>:<date>`) is what makes supersession work: two writers
//! who follow it land on the same subject, and the newer fact replaces the older one.
//!
//! Validation is off by default. `warn` records what would have been refused, `strict` refuses it.

use vstd::prelude::*;

use crate::json::{parse, Json, JsonView};
use crate::memory::schema::{
    new_regex, pattern_of, regex_is_match, regex_matches, regex_refusal, violations, NodeView,
    Validator,
};
use crate::text;
use crate::text::views;

verus! {

broadcast use vstd::string::group_string_axioms;

/// How far writes are held to the fact schemas.
#[derive(Debug, Clone, Copy, PartialEq, Eq, Structural)]
pub enum FactValidation {
    /// Accept anything.
    Off,
    /// Accept, but count and log what `Strict` would refuse.
    Warn,
    /// Refuse a write that does not validate.
    Strict,
}

impl Default for FactValidation {
    fn default() -> (r: FactValidation)
        ensures
            r == FactValidation::Off,
    {
        FactValidation::Off
    }
}

impl FactValidation {
    pub fn is_off(self) -> (r: bool)
        ensures
            r == (self == FactValidation::Off),
    {
        self == FactValidation::Off
    }

    /// The mode that a configuration names.
    pub fn parse(s: &str) -> (r: Option<FactValidation>)
        ensures
            r == if s@ == "off"@ {
                Some(FactValidation::Off)
            } else if s@ == "warn"@ {
                Some(FactValidation::Warn)
            } else if s@ == "strict"@ {
                Some(FactValidation::Strict)
            } else {
                None
            },
    {
        if text::same(s, "off") {
            Some(FactValidation::Off)
        } else if text::same(s, "warn") {
            Some(FactValidation::Warn)
        } else if text::same(s, "strict") {
            Some(FactValidation::Strict)
        } else {
            None
        }
    }
}

// ── Kinds ────────────────────────────────────────────────────────────────────────────

/// The fact vocabulary.
#[derive(Debug, Clone, Copy, PartialEq, Eq, Hash, Structural)]
pub enum FactKind {
    Decision,
    Convention,
    Incident,
    TicketSummary,
    RunLesson,
    FlakyTest,
    Hotspot,
    Finding,
    /// The escape hatch: the envelope alone, and no subject grammar.
    Other,
}

/// The place of a kind in the vocabulary.
pub open spec fn kind_index(k: FactKind) -> int {
    match k {
        FactKind::Decision => 0,
        FactKind::Convention => 1,
        FactKind::Incident => 2,
        FactKind::TicketSummary => 3,
        FactKind::RunLesson => 4,
        FactKind::FlakyTest => 5,
        FactKind::Hotspot => 6,
        FactKind::Finding => 7,
        FactKind::Other => 8,
    }
}

/// The vocabulary in order.
pub open spec fn all_kinds() -> Seq<FactKind> {
    seq![
        FactKind::Decision,
        FactKind::Convention,
        FactKind::Incident,
        FactKind::TicketSummary,
        FactKind::RunLesson,
        FactKind::FlakyTest,
        FactKind::Hotspot,
        FactKind::Finding,
        FactKind::Other,
    ]
}

/// The wire name of a kind.
pub open spec fn kind_name(k: FactKind) -> Seq<char> {
    match k {
        FactKind::Decision => "decision"@,
        FactKind::Convention => "convention"@,
        FactKind::Incident => "incident"@,
        FactKind::TicketSummary => "ticket_summary"@,
        FactKind::RunLesson => "run_lesson"@,
        FactKind::FlakyTest => "flaky_test"@,
        FactKind::Hotspot => "hotspot"@,
        FactKind::Finding => "finding"@,
        FactKind::Other => "other"@,
    }
}

/// The subject grammar of a kind: the form for people, and the pattern.
pub open spec fn grammar(k: FactKind) -> Option<(Seq<char>, Seq<char>)> {
    match k {
        FactKind::Decision => Some(
            (
                "decision:<area>:<slug>"@,
                "^decision:[a-z0-9][a-z0-9._/-]*:[a-z0-9][a-z0-9._/-]*$"@,
            ),
        ),
        FactKind::Convention => Some(
            (
                "convention:<area>:<slug>"@,
                "^convention:[a-z0-9][a-z0-9._/-]*:[a-z0-9][a-z0-9._/-]*$"@,
            ),
        ),
        FactKind::Incident => Some(
            (
                "incident:<service>:<yyyy-mm-dd>"@,
                "^incident:[a-z0-9][a-z0-9._/-]*:\\d{4}-\\d{2}-\\d{2}$"@,
            ),
        ),
        FactKind::TicketSummary => Some(
            ("ticket:<tracker>:<key>"@, "^ticket:[a-z0-9][a-z0-9._/-]*:[a-z0-9][a-z0-9._/-]*$"@),
        ),
        FactKind::RunLesson => Some(
            (
                "run_lesson:<workflow>:<slug>"@,
                "^run_lesson:[a-z0-9][a-z0-9._/-]*:[a-z0-9][a-z0-9._/-]*$"@,
            ),
        ),
        FactKind::FlakyTest => Some(("flaky_test:<path>::<name>"@, "^flaky_test:[^:]+::\\S.*$"@)),
        FactKind::Hotspot => Some(("hotspot:<path>"@, "^hotspot:\\S+$"@)),
        FactKind::Finding => Some(
            ("finding:<tool>:<rule>"@, "^finding:[a-z0-9][a-z0-9._/-]*:[a-z0-9][a-z0-9._/-]*$"@),
        ),
        FactKind::Other => None,
    }
}

/// The kind of a wire name.
pub open spec fn kind_named(s: Seq<char>) -> Option<FactKind> {
    if exists|k: FactKind| kind_name(k) == s {
        Some(choose|k: FactKind| kind_name(k) == s)
    } else {
        None
    }
}

/// Different kinds have different names.
pub proof fn lemma_names_differ(a: FactKind, b: FactKind)
    requires
        kind_name(a) == kind_name(b),
    ensures
        a == b,
{
    reveal_strlit("decision");
    reveal_strlit("convention");
    reveal_strlit("incident");
    reveal_strlit("ticket_summary");
    reveal_strlit("run_lesson");
    reveal_strlit("flaky_test");
    reveal_strlit("hotspot");
    reveal_strlit("finding");
    reveal_strlit("other");
    assert("decision"@.len() == 8 && "decision"@[0] == 'd');
    assert("convention"@.len() == 10 && "convention"@[0] == 'c');
    assert("incident"@.len() == 8 && "incident"@[0] == 'i');
    assert("ticket_summary"@.len() == 14);
    assert("run_lesson"@.len() == 10 && "run_lesson"@[0] == 'r');
    assert("flaky_test"@.len() == 10 && "flaky_test"@[0] == 'f');
    assert("hotspot"@.len() == 7 && "hotspot"@[0] == 'h');
    assert("finding"@.len() == 7 && "finding"@[0] == 'f');
    assert("other"@.len() == 5);
}

/// A kind is found under its own name.
pub proof fn law_kinds_round_trip(k: FactKind)
    ensures
        kind_named(kind_name(k)) == Some(k),
{
    let found = choose|x: FactKind| kind_name(x) == kind_name(k);
    assert(kind_name(k) == kind_name(k));
    assert(kind_name(found) == kind_name(k));
    lemma_names_differ(found, k);
}

/// The texts of the schema documents, one per kind and one for the envelope that all facts share.
pub struct SchemaTexts {
    pub envelope: String,
    pub decision: String,
    pub convention: String,
    pub incident: String,
    pub ticket_summary: String,
    pub run_lesson: String,
    pub flaky_test: String,
    pub hotspot: String,
    pub finding: String,
    pub other: String,
}

impl SchemaTexts {
    pub open spec fn of(self, k: FactKind) -> Seq<char> {
        match k {
            FactKind::Decision => self.decision@,
            FactKind::Convention => self.convention@,
            FactKind::Incident => self.incident@,
            FactKind::TicketSummary => self.ticket_summary@,
            FactKind::RunLesson => self.run_lesson@,
            FactKind::FlakyTest => self.flaky_test@,
            FactKind::Hotspot => self.hotspot@,
            FactKind::Finding => self.finding@,
            FactKind::Other => self.other@,
        }
    }
}

impl FactKind {
    /// The vocabulary in order.
    pub fn all() -> (r: Vec<FactKind>)
        ensures
            r@ == all_kinds(),
    {
        let mut out: Vec<FactKind> = Vec::new();
        out.push(FactKind::Decision);
        out.push(FactKind::Convention);
        out.push(FactKind::Incident);
        out.push(FactKind::TicketSummary);
        out.push(FactKind::RunLesson);
        out.push(FactKind::FlakyTest);
        out.push(FactKind::Hotspot);
        out.push(FactKind::Finding);
        out.push(FactKind::Other);
        out
    }

    pub fn as_str(self) -> (r: &'static str)
        ensures
            r@ == kind_name(self),
    {
        match self {
            FactKind::Decision => "decision",
            FactKind::Convention => "convention",
            FactKind::Incident => "incident",
            FactKind::TicketSummary => "ticket_summary",
            FactKind::RunLesson => "run_lesson",
            FactKind::FlakyTest => "flaky_test",
            FactKind::Hotspot => "hotspot",
            FactKind::Finding => "finding",
            FactKind::Other => "other",
        }
    }

    /// The kind of a wire name.
    pub fn parse(s: &str) -> (r: Option<FactKind>)
        ensures
            r == kind_named(s@),
    {
        let kinds = FactKind::all();
        let mut i: usize = 0;
        while i < kinds.len()
            invariant
                i <= kinds.len(),
                kinds@ == all_kinds(),
                forall|k: int| 0 <= k < i ==> kind_name(#[trigger] all_kinds()[k]) != s@,
            decreases kinds.len() - i,
        {
            if text::same(kinds[i].as_str(), s) {
                proof {
                    law_kinds_round_trip(kinds@[i as int]);
                }
                return Some(kinds[i]);
            }
            i += 1;
        }
        proof {
            assert forall|k: FactKind| kind_name(k) != s@ by {
                assert(all_kinds()[kind_index(k)] == k);
            }
        }
        None
    }

    /// The schema document of this kind.
    pub fn schema_json<'a>(self, texts: &'a SchemaTexts) -> (r: &'a str)
        ensures
            r@ == texts.of(self),
    {
        match self {
            FactKind::Decision => texts.decision.as_str(),
            FactKind::Convention => texts.convention.as_str(),
            FactKind::Incident => texts.incident.as_str(),
            FactKind::TicketSummary => texts.ticket_summary.as_str(),
            FactKind::RunLesson => texts.run_lesson.as_str(),
            FactKind::FlakyTest => texts.flaky_test.as_str(),
            FactKind::Hotspot => texts.hotspot.as_str(),
            FactKind::Finding => texts.finding.as_str(),
            FactKind::Other => texts.other.as_str(),
        }
    }

    /// The form that a subject must have, for people, and the pattern that it must match.
    ///
    /// Patterns are in lower case because subjects are normalised before they are stored.
    pub fn subject_grammar(self) -> (r: Option<(&'static str, &'static str)>)
        ensures
            match r {
                Some((form, pattern)) => grammar(self) == Some((form@, pattern@)),
                None => grammar(self) is None,
            },
    {
        match self {
            FactKind::Decision => Some(
                (
                    "decision:<area>:<slug>",
                    "^decision:[a-z0-9][a-z0-9._/-]*:[a-z0-9][a-z0-9._/-]*$",
                ),
            ),
            FactKind::Convention => Some(
                (
                    "convention:<area>:<slug>",
                    "^convention:[a-z0-9][a-z0-9._/-]*:[a-z0-9][a-z0-9._/-]*$",
                ),
            ),
            FactKind::Incident => Some(
                (
                    "incident:<service>:<yyyy-mm-dd>",
                    "^incident:[a-z0-9][a-z0-9._/-]*:\\d{4}-\\d{2}-\\d{2}$",
                ),
            ),
            FactKind::TicketSummary => Some(
                ("ticket:<tracker>:<key>", "^ticket:[a-z0-9][a-z0-9._/-]*:[a-z0-9][a-z0-9._/-]*$"),
            ),
            FactKind::RunLesson => Some(
                (
                    "run_lesson:<workflow>:<slug>",
                    "^run_lesson:[a-z0-9][a-z0-9._/-]*:[a-z0-9][a-z0-9._/-]*$",
                ),
            ),
            FactKind::FlakyTest => Some(("flaky_test:<path>::<name>", "^flaky_test:[^:]+::\\S.*$")),
            FactKind::Hotspot => Some(("hotspot:<path>", "^hotspot:\\S+$")),
            FactKind::Finding => Some(
                ("finding:<tool>:<rule>", "^finding:[a-z0-9][a-z0-9._/-]*:[a-z0-9][a-z0-9._/-]*$"),
            ),
            FactKind::Other => None,
        }
    }
}

// ── Compiled schemas ─────────────────────────────────────────────────────────────────

/// What the compiled schemas demand: of every fact, and of the facts of each kind.
pub struct RulesView {
    pub envelope: NodeView,
    pub kinds: Seq<NodeView>,
}

impl RulesView {
    pub open spec fn of(self, k: FactKind) -> NodeView {
        self.kinds[kind_index(k)]
    }
}

/// What a schema text compiles to, where it is a schema.
pub open spec fn schema_of(text: Seq<char>) -> Option<NodeView> {
    match crate::json::parsed(text) {
        Some(j) => match crate::memory::schema::compiled(j, "#"@) {
            Ok(n) => Some(n),
            Err(_) => None,
        },
        None => None,
    }
}

/// Is the pattern of a kind a regular expression?
pub open spec fn grammar_compiles(k: FactKind) -> bool {
    match grammar(k) {
        Some((_, pattern)) => regex_refusal(pattern) is None,
        None => true,
    }
}

/// Compiled schemas and subject patterns.
pub struct FactRules {
    envelope: Validator,
    kinds: Vec<Validator>,
    subjects: Vec<Option<regex::Regex>>,
}

impl View for FactRules {
    type V = RulesView;

    closed spec fn view(&self) -> RulesView {
        RulesView { envelope: self.envelope@, kinds: self.kinds@.map_values(|v: Validator| v@) }
    }
}

fn compile_text(text: &str) -> (r: Option<Validator>)
    ensures
        match r {
            Some(v) => schema_of(text@) == Some(v@),
            None => schema_of(text@) is None,
        },
{
    match parse(text) {
        Some(j) => match Validator::compile(&j) {
            Ok(v) => Some(v),
            Err(_) => None,
        },
        None => None,
    }
}

impl FactRules {
    #[verifier::type_invariant]
    spec fn complete(self) -> bool {
        &&& self.kinds@.len() == all_kinds().len()
        &&& self.subjects@.len() == all_kinds().len()
        &&& forall|i: int|
            0 <= i < self.subjects@.len() ==> match (#[trigger] self.subjects@[i]) {
                Some(re) => grammar(all_kinds()[i]) is Some && pattern_of(re) == (grammar(
                    all_kinds()[i],
                )->0).1,
                None => grammar(all_kinds()[i]) is None,
            }
    }

    /// Compiles the schema documents and the subject patterns. `None` where one of them is not
    /// what it should be, which is a mistake of whoever wrote it.
    pub fn compile(texts: &SchemaTexts) -> (r: Option<FactRules>)
        ensures
            match r {
                Some(c) => {
                    &&& schema_of(texts.envelope@) == Some(c@.envelope)
                    &&& forall|k: FactKind| #[trigger] schema_of(texts.of(k)) == Some(c@.of(k))
                    &&& forall|k: FactKind| #[trigger] grammar_compiles(k)
                },
                None => {
                    ||| schema_of(texts.envelope@) is None
                    ||| exists|k: FactKind| #[trigger] schema_of(texts.of(k)) is None
                    ||| exists|k: FactKind| !#[trigger] grammar_compiles(k)
                },
            },
    {
        let envelope = match compile_text(texts.envelope.as_str()) {
            Some(v) => v,
            None => {
                return None;
            },
        };
        let all = FactKind::all();
        let mut kinds: Vec<Validator> = Vec::new();
        let mut subjects: Vec<Option<regex::Regex>> = Vec::new();
        let mut i: usize = 0;
        while i < all.len()
            invariant
                i <= all.len(),
                all@ == all_kinds(),
                kinds@.len() == i,
                subjects@.len() == i,
                forall|k: int|
                    0 <= k < i ==> schema_of(texts.of(all_kinds()[k])) == Some(
                        (#[trigger] kinds@[k])@,
                    ),
                forall|k: int| 0 <= k < i ==> grammar_compiles(#[trigger] all_kinds()[k]),
                forall|k: int|
                    0 <= k < i ==> match (#[trigger] subjects@[k]) {
                        Some(re) => grammar(all_kinds()[k]) is Some && pattern_of(re) == (grammar(
                            all_kinds()[k],
                        )->0).1,
                        None => grammar(all_kinds()[k]) is None,
                    },
            decreases all.len() - i,
        {
            let kind = all[i];
            match compile_text(kind.schema_json(texts)) {
                Some(v) => {
                    kinds.push(v);
                },
                None => {
                    proof {
                        assert(schema_of(texts.of(kind)) is None);
                    }
                    return None;
                },
            }
            match kind.subject_grammar() {
                Some((_, pattern)) => match new_regex(pattern) {
                    Ok(re) => {
                        subjects.push(Some(re));
                    },
                    Err(_) => {
                        proof {
                            assert(!grammar_compiles(kind));
                        }
                        return None;
                    },
                },
                None => {
                    subjects.push(None);
                },
            }
            i += 1;
        }
        let rules = FactRules { envelope, kinds, subjects };
        proof {
            assert forall|k: FactKind| #[trigger]
                schema_of(texts.of(k)) == Some(rules@.of(k)) by {
                assert(all_kinds()[kind_index(k)] == k);
                assert(rules@.kinds[kind_index(k)] == rules.kinds@[kind_index(k)]@);
            }
            assert forall|k: FactKind| #[trigger] grammar_compiles(k) by {
                assert(all_kinds()[kind_index(k)] == k);
            }
        }
        Some(rules)
    }
}

// ── Validating ───────────────────────────────────────────────────────────────────────

/// An error of a kind's schema, as it is told to a writer.
pub open spec fn told(e: Seq<char>) -> Seq<char> {
    text::replaced("metadata."@ + e, "metadata.<root>"@, "metadata"@)
}

pub open spec fn all_told(es: Seq<Seq<char>>) -> Seq<Seq<char>> {
    es.map_values(|e: Seq<char>| told(e))
}

/// What is wrong with the subject of a fact.
pub open spec fn subject_errors(kind: FactKind, subject: Option<Seq<char>>) -> Seq<Seq<char>> {
    match grammar(kind) {
        Some((form, pattern)) => match subject {
            Some(s) if s.len() > 0 => if regex_matches(pattern, s) {
                seq![]
            } else {
                seq![
                    "subject: `"@ + s + "` does not match the `"@ + kind_name(kind) + "` grammar `"@
                        + form + "`"@,
                ]
            },
            _ => seq![
                "subject: a `"@ + kind_name(kind) + "` fact needs a subject of the form `"@ + form
                    + "` — without it nothing supersedes anything"@,
            ],
        },
        None => seq![],
    }
}

pub open spec fn kind_names() -> Seq<Seq<char>> {
    all_kinds().map_values(|k: FactKind| kind_name(k))
}

/// Everything that is wrong with a fact.
pub open spec fn fact_errors(
    rules: RulesView,
    subject: Option<Seq<char>>,
    metadata: JsonView,
) -> Seq<Seq<char>> {
    let errors = violations(rules.envelope, metadata, seq![]);
    match metadata.field("kind"@) {
        Some(JsonView::Str(name)) => match kind_named(name) {
            Some(kind) => errors + all_told(violations(rules.of(kind), metadata, seq![]))
                + subject_errors(kind, subject),
            None => errors.push(
                "metadata.kind: unknown fact kind `"@ + name + "` — known kinds: "@ + text::joined(
                    kind_names(),
                    ", "@,
                ),
            ),
        },
        _ => errors,
    }
}

fn told_text(e: &str) -> (r: String)
    ensures
        r@ == told(e@),
{
    proof {
        reveal_strlit("metadata.<root>");
    }
    text::replace(text::cat("metadata.", e).as_str(), "metadata.<root>", "metadata")
}

fn tell_all(errors: &mut Vec<String>, more: &Vec<String>)
    ensures
        views(final(errors)@) == views(old(errors)@) + all_told(views(more@)),
{
    let ghost start = views(errors@);
    let ghost all = all_told(views(more@));
    let mut i: usize = 0;
    proof {
        assert(start + all.take(0) =~= start);
    }
    while i < more.len()
        invariant
            i <= more.len(),
            all == all_told(views(more@)),
            views(errors@) == start + all.take(i as int),
        decreases more.len() - i,
    {
        let ghost before = errors@;
        errors.push(told_text(more[i].as_str()));
        i += 1;
        proof {
            assert(views(errors@) =~= views(before).push(all[i - 1]));
            assert(start + all.take(i as int) =~= (start + all.take(i - 1)).push(all[i - 1]));
        }
    }
    proof {
        assert(all.take(all.len() as int) =~= all);
    }
}

fn known_kinds() -> (r: String)
    ensures
        r@ == text::joined(kind_names(), ", "@),
{
    let kinds = FactKind::all();
    let mut names: Vec<String> = Vec::new();
    let mut i: usize = 0;
    while i < kinds.len()
        invariant
            i <= kinds.len(),
            kinds@ == all_kinds(),
            names.len() == i,
            forall|k: int| 0 <= k < i ==> (#[trigger] names@[k])@ == kind_name(all_kinds()[k]),
        decreases kinds.len() - i,
    {
        names.push(kinds[i].as_str().to_owned());
        i += 1;
    }
    proof {
        assert(views(names@) =~= kind_names());
    }
    text::join(&names, ", ")
}

fn index_of(kind: FactKind) -> (r: usize)
    ensures
        r == kind_index(kind),
{
    match kind {
        FactKind::Decision => 0,
        FactKind::Convention => 1,
        FactKind::Incident => 2,
        FactKind::TicketSummary => 3,
        FactKind::RunLesson => 4,
        FactKind::FlakyTest => 5,
        FactKind::Hotspot => 6,
        FactKind::Finding => 7,
        FactKind::Other => 8,
    }
}

impl FactRules {
    fn check_subject(&self, kind: FactKind, subject: Option<&str>, errors: &mut Vec<String>)
        ensures
            views(final(errors)@) == views(old(errors)@) + subject_errors(
                kind,
                text::opt_str_view(subject),
            ),
    {
        proof {
            use_type_invariant(self);
            assert(all_kinds()[kind_index(kind)] == kind);
        }
        let ghost start = views(errors@);
        let ghost before = errors@;
        if let Some(re) = &self.subjects[index_of(kind)] {
            if let Some((form, _)) = kind.subject_grammar() {
                let given = match subject {
                    Some(s) => text::chars(s).len() > 0,
                    None => false,
                };
                if !given {
                    errors.push(
                        text::cat5(
                            "subject: a `",
                            kind.as_str(),
                            "` fact needs a subject of the form `",
                            form,
                            "` — without it nothing supersedes anything",
                        ),
                    );
                } else if let Some(s) = subject {
                    if !regex_is_match(re, s) {
                        let mut e = text::cat5(
                            "subject: `",
                            s,
                            "` does not match the `",
                            kind.as_str(),
                            "` grammar `",
                        );
                        e.append(form);
                        e.append("`");
                        errors.push(e);
                    }
                }
            }
        }
        proof {
            assert(views(errors@) =~= start + subject_errors(kind, text::opt_str_view(subject)));
        }
    }

    fn errors_of(&self, subject: Option<&str>, metadata: &Json) -> (r: Vec<String>)
        ensures
            views(r@) == fact_errors(self@, text::opt_str_view(subject), metadata@),
    {
        proof {
            use_type_invariant(self);
        }
        let mut errors = self.envelope.validate(metadata);
        let name = match metadata.get("kind") {
            Some(Json::Str(name)) => name,
            _ => {
                return errors;
            },
        };
        match FactKind::parse(name.as_str()) {
            Some(kind) => {
                let more = self.kinds[index_of(kind)].validate(metadata);
                tell_all(&mut errors, &more);
                self.check_subject(kind, subject, &mut errors);
            },
            None => {
                let ghost before = errors@;
                errors.push(
                    text::cat4(
                        "metadata.kind: unknown fact kind `",
                        name.as_str(),
                        "` — known kinds: ",
                        known_kinds().as_str(),
                    ),
                );
                proof {
                    assert(views(errors@) =~= views(before).push(errors@.last()@));
                }
            },
        }
        errors
    }
}

/// Everything that is wrong with one fact. Nothing means that it is valid; what an error costs is
/// for the caller to decide.
pub fn validate(rules: &FactRules, subject: Option<&str>, metadata: &Json) -> (r: Vec<String>)
    ensures
        views(r@) == fact_errors(rules@, text::opt_str_view(subject), metadata@),
{
    rules.errors_of(subject, metadata)
}

/// Does a write say where it comes from? A `provenance.source` that is not blank counts, and so do
/// the events that a memory was distilled from.
pub open spec fn attributed(metadata: JsonView, sources: nat) -> bool {
    sources > 0 || match crate::json::opt_field(metadata.field("provenance"@), "source"@) {
        Some(JsonView::Str(s)) => !text::blank(s),
        _ => false,
    }
}

/// Is this write attributable?
pub fn has_provenance(metadata: &Json, source_event_ids: &[u128]) -> (r: bool)
    ensures
        r == attributed(metadata@, source_event_ids@.len()),
{
    if source_event_ids.len() > 0 {
        return true;
    }
    match metadata.get("provenance") {
        Some(p) => match p.get("source") {
            Some(Json::Str(s)) => {
                let cs = text::chars(s.as_str());
                !text::is_blank(&cs)
            },
            _ => false,
        },
        None => false,
    }
}

// ── Laws ─────────────────────────────────────────────────────────────────────────────

/// An accepted fact satisfies the envelope; one with a known kind satisfies the schema of its kind,
/// and its subject matches the grammar of its kind. A fact of an unknown kind is never accepted.
pub proof fn law_accepted_facts_match_their_kind(
    rules: RulesView,
    subject: Option<Seq<char>>,
    metadata: JsonView,
)
    ensures
        fact_errors(rules, subject, metadata).len() == 0 <==> {
            &&& crate::memory::schema_laws::conforms(rules.envelope, metadata)
            &&& match metadata.field("kind"@) {
                Some(JsonView::Str(name)) => match kind_named(name) {
                    Some(kind) => {
                        &&& crate::memory::schema_laws::conforms(rules.of(kind), metadata)
                        &&& match grammar(kind) {
                            Some((_, pattern)) => subject is Some && subject->0.len() > 0
                                && regex_matches(pattern, subject->0),
                            None => true,
                        }
                    },
                    None => false,
                },
                _ => true,
            }
        },
{
    crate::memory::schema_laws::law_no_violation_means_conforming(
        rules.envelope,
        metadata,
        seq![],
    );
    if let Some(JsonView::Str(name)) = metadata.field("kind"@) {
        if let Some(kind) = kind_named(name) {
            crate::memory::schema_laws::law_no_violation_means_conforming(
                rules.of(kind),
                metadata,
                seq![],
            );
        }
    }
}

} // verus!
