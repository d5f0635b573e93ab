//! Promoting webhook events into memories.
//!
//! Webhooks land in the episodic log. A small set of event types, those that mark a durable outcome
//! rather than a passing state, is written as a memory too.
//!
//! - Outcomes, not activity: the default rules promote closes, merges and resolutions.
//! - Deterministic subjects: a promoted memory is keyed `acme/api#pr-42`, so that an event that is
//!   delivered twice confirms what is there, and a later state of the same ticket replaces it.

use vstd::prelude::*;

use crate::json::{Json, JsonView};
use crate::memory::event::Event;
use crate::text;
use crate::text::Class;

verus! {

broadcast use vstd::string::group_string_axioms;

// ── Model ────────────────────────────────────────────────────────────────────────────

pub struct PromotionView {
    pub subject: Seq<char>,
    pub content: Seq<char>,
}

/// The vendor of a source: what stands before the first slash.
pub open spec fn vendor_of(source: Seq<char>) -> Seq<char> {
    source.take(text::find(source, '/'))
}

/// Does a rule `<vendor>:<event type>` cover an event? Either side may be `*`; the vendor is
/// compared without regard to ASCII case; an event type that ends in `*` is a prefix.
pub open spec fn covers(rule: Seq<char>, vendor: Seq<char>, event_type: Seq<char>) -> bool {
    let k = text::find(rule, ':');
    let want_vendor = rule.take(k);
    let want_type = rule.skip(k + 1);
    &&& k < rule.len()
    &&& want_vendor == "*"@ || text::ascii_lowered(want_vendor) == text::ascii_lowered(vendor)
    &&& {
        ||| want_type == "*"@
        ||| want_type == event_type
        ||| want_type.len() > 0 && want_type.last() == '*' && text::begins(
            event_type,
            want_type.drop_last(),
        )
    }
}

/// A field that is reached through fields.
pub open spec fn at3(p: JsonView, a: Seq<char>, b: Seq<char>, c: Seq<char>) -> Option<JsonView> {
    crate::json::opt_field(crate::json::opt_field(p.field(a), b), c)
}

/// A string, or what stands in for it.
pub open spec fn str_or(v: Option<JsonView>, otherwise: Seq<char>) -> Seq<char> {
    match v {
        Some(JsonView::Str(s)) => s,
        _ => otherwise,
    }
}

/// One character of a slug: what has been written, and whether a dash would be doubled.
pub open spec fn slug_step(s: (Seq<char>, bool), c: char) -> (Seq<char>, bool) {
    if text::alnum(c) {
        (s.0 + text::lower(c), false)
    } else if !s.1 {
        (s.0.push('-'), true)
    } else {
        s
    }
}

pub open spec fn slug_scan(s: Seq<char>) -> (Seq<char>, bool)
    decreases s.len(),
{
    if s.len() == 0 {
        (seq![], true)
    } else {
        slug_step(slug_scan(s.drop_last()), s.last())
    }
}

/// A stable key from free text: lower case, runs of other characters as one dash, of the first 120
/// characters.
pub open spec fn slug_of(s: Seq<char>) -> Seq<char> {
    text::trimmed_both(slug_scan(text::first_chars(s, 120)).0, Class::Dash)
}

pub open spec fn pull_request(p: JsonView) -> Option<PromotionView> {
    let repo = str_or(p.field("repository"@), "unknown"@);
    match at3(p, "raw"@, "pull_request"@, "number"@) {
        Some(n) => match n.unsigned() {
            Some(number) => {
                let title = str_or(at3(p, "raw"@, "pull_request"@, "title"@), "(no title)"@);
                let who = str_or(p.field("sender"@), "someone"@);
                let merged = at3(p, "raw"@, "pull_request"@, "merged"@) == Some(
                    JsonView::Bool(true),
                );
                let outcome = if merged {
                    "merged"@
                } else {
                    "closed without merging"@
                };
                Some(
                    PromotionView {
                        subject: repo + "#pr-"@ + text::decimal_of(number as nat),
                        content: "Pull request #"@ + text::decimal_of(number as nat) + " in "@ + repo
                            + " — \""@ + title + "\" — "@ + outcome + " by "@ + who + "."@,
                    },
                )
            },
            None => None,
        },
        None => None,
    }
}

pub open spec fn issue(p: JsonView) -> Option<PromotionView> {
    let repo = str_or(p.field("repository"@), "unknown"@);
    match at3(p, "raw"@, "issue"@, "number"@) {
        Some(n) => match n.unsigned() {
            Some(number) => {
                let title = str_or(at3(p, "raw"@, "issue"@, "title"@), "(no title)"@);
                let who = str_or(p.field("sender"@), "someone"@);
                let body = str_or(at3(p, "raw"@, "issue"@, "body"@), ""@);
                let line = "Issue #"@ + text::decimal_of(number as nat) + " in "@ + repo + " — \""@
                    + title + "\" — closed by "@ + who + "."@;
                Some(
                    PromotionView {
                        subject: repo + "#issue-"@ + text::decimal_of(number as nat),
                        content: if text::blank(body) {
                            line
                        } else {
                            line + "\n\n"@ + text::trimmed(body)
                        },
                    },
                )
            },
            None => None,
        },
        None => None,
    }
}

pub open spec fn sentry(p: JsonView) -> Option<PromotionView> {
    let title = str_or(p.field("title"@), seq![]);
    let project = str_or(p.field("project"@), "unknown"@);
    if title.len() == 0 {
        None
    } else {
        Some(
            PromotionView {
                subject: "sentry/"@ + project + "#"@ + slug_of(title),
                content: "Sentry "@ + str_or(p.field("level"@), "error"@) + " in "@ + project
                    + " — \""@ + title + "\" — "@ + str_or(p.field("action"@), "resolved"@) + "."@,
            },
        )
    }
}

pub open spec fn pagerduty(p: JsonView, event_type: Seq<char>) -> Option<PromotionView> {
    let title = str_or(p.field("title"@), seq![]);
    let service = str_or(p.field("service"@), "unknown"@);
    if title.len() == 0 {
        None
    } else {
        Some(
            PromotionView {
                subject: "pagerduty/"@ + service + "#"@ + slug_of(title),
                content: "PagerDuty incident on "@ + service + " — \""@ + title + "\" — "@
                    + event_type + "."@,
            },
        )
    }
}

/// The memory that an event becomes.
pub open spec fn promotion(
    source: Seq<char>,
    event_type: Seq<char>,
    payload: JsonView,
) -> Option<PromotionView> {
    let vendor = vendor_of(source);
    if vendor == "github"@ && text::begins(event_type, "pull_request."@) {
        pull_request(payload)
    } else if vendor == "github"@ && text::begins(event_type, "issue."@) {
        issue(payload)
    } else if vendor == "sentry"@ {
        sentry(payload)
    } else if vendor == "pagerduty"@ {
        pagerduty(payload, event_type)
    } else {
        None
    }
}

// ── Code ─────────────────────────────────────────────────────────────────────────────

/// A webhook event judged worth remembering.
#[derive(Debug, Clone, PartialEq, Eq)]
pub struct Promotion {
    /// The stable key of this ticket or incident.
    pub subject: String,
    /// A summary for people.
    pub content: String,
}

impl View for Promotion {
    type V = PromotionView;

    open spec fn view(&self) -> PromotionView {
        PromotionView { subject: self.subject@, content: self.content@ }
    }
}

pub open spec fn opt_promotion(o: Option<Promotion>) -> Option<PromotionView> {
    match o {
        Some(p) => Some(p@),
        None => None,
    }
}

/// The vendor of a source (`github/acme/api` gives `github`).
pub fn vendor(source: &str) -> (r: String)
    ensures
        r@ == vendor_of(source@),
{
    let cs = text::chars(source);
    let n = text::find_char(&cs, '/');
    proof {
        assert(cs@.subrange(0, n as int) =~= cs@.take(n as int));
    }
    text::string(&cs[0..n])
}

fn rule_covers(rule: &str, vendor: &str, event_type: &str) -> (r: bool)
    ensures
        r == covers(rule@, vendor@, event_type@),
{
    let cs = text::chars(rule);
    let k = text::find_char(&cs, ':');
    if k >= cs.len() {
        return false;
    }
    let want_vendor = &cs[0..k];
    let want_type = &cs[k + 1..cs.len()];
    proof {
        assert(want_vendor@ =~= rule@.take(k as int));
        assert(want_type@ =~= rule@.skip(k + 1));
    }
    let v = text::chars(vendor);
    let t = text::chars(event_type);
    let type_text = text::string(want_type);
    let vendor_text = text::string(want_vendor);
    let vendor_ok = text::same(vendor_text.as_str(), "*") || text::same_ignoring_case(
        want_vendor,
        &v,
    );
    let n = want_type.len();
    let prefix_ok = if n > 0 && want_type[n - 1] == '*' {
        proof {
            assert(want_type@.subrange(0, n - 1) =~= want_type@.drop_last());
        }
        text::starts(&t, &want_type[0..n - 1])
    } else {
        false
    };
    let type_ok = text::same(type_text.as_str(), "*") || text::same(type_text.as_str(), event_type)
        || prefix_ok;
    vendor_ok && type_ok
}

/// Does an event match any of the rules?
pub fn matches(event: &Event, rules: &[String]) -> (r: bool)
    ensures
        r == exists|i: int|
            0 <= i < rules@.len() && covers(
                (#[trigger] rules@[i])@,
                vendor_of(event.source@),
                event.event_type@,
            ),
{
    let v = vendor(event.source.as_str());
    let mut i: usize = 0;
    while i < rules.len()
        invariant
            i <= rules.len(),
            v@ == vendor_of(event.source@),
            forall|k: int|
                0 <= k < i ==> !covers((#[trigger] rules@[k])@, v@, event.event_type@),
        decreases rules.len() - i,
    {
        if rule_covers(rules[i].as_str(), v.as_str(), event.event_type.as_str()) {
            return true;
        }
        i += 1;
    }
    false
}

/// The rules that are used where none are given: the moments that mark a durable outcome.
pub fn default_rules() -> (r: Vec<String>)
    ensures
        text::views(r@) == seq![
            "github:pull_request.closed"@,
            "github:issue.closed"@,
            "sentry:issue.resolved"@,
            "pagerduty:incident.resolved"@,
            "pagerduty:incident.resolve"@,
        ],
{
    let mut out: Vec<String> = Vec::new();
    out.push("github:pull_request.closed".to_owned());
    out.push("github:issue.closed".to_owned());
    out.push("sentry:issue.resolved".to_owned());
    out.push("pagerduty:incident.resolved".to_owned());
    out.push("pagerduty:incident.resolve".to_owned());
    proof {
        assert(text::views(out@) =~= seq![
            "github:pull_request.closed"@,
            "github:issue.closed"@,
            "sentry:issue.resolved"@,
            "pagerduty:incident.resolved"@,
            "pagerduty:incident.resolve"@,
        ]);
    }
    out
}

/// A stable key from free text.
pub fn slug(s: &str) -> (r: String)
    ensures
        r@ == slug_of(s@),
{
    let cs = text::chars(s);
    let kept = text::take_chars(&cs, 120);
    let mut out: Vec<char> = Vec::new();
    let mut last_dash = true;
    let mut i: usize = 0;
    proof {
        assert(kept@.take(0) =~= seq![]);
        assert(out@ =~= seq![]);
    }
    while i < kept.len()
        invariant
            i <= kept.len(),
            slug_scan(kept@.take(i as int)) == (out@, last_dash),
        decreases kept.len() - i,
    {
        let c = kept[i];
        proof {
            assert(kept@.take(i + 1).drop_last() =~= kept@.take(i as int));
            assert(kept@.take(i + 1).last() == c);
        }
        if c.is_alphanumeric() {
            let lower = text::chars(text::lower_char(c).as_str());
            text::extend(&mut out, &lower);
            last_dash = false;
        } else if !last_dash {
            out.push('-');
            last_dash = true;
        }
        i += 1;
    }
    proof {
        assert(kept@.take(kept@.len() as int) =~= kept@);
    }
    text::string(text::trim_tail(text::trim_lead(&out, Class::Dash), Class::Dash))
}

fn field_at<'a>(p: &'a Json, a: &str, b: &str, c: &str) -> (r: Option<&'a Json>)
    ensures
        crate::json::opt_tree(r) == at3(p@, a@, b@, c@),
{
    match p.get(a) {
        Some(x) => match x.get(b) {
            Some(y) => y.get(c),
            None => None,
        },
        None => None,
    }
}

fn string_or(v: Option<&Json>, otherwise: &str) -> (r: String)
    ensures
        r@ == str_or(crate::json::opt_tree(v), otherwise@),
{
    match v {
        Some(Json::Str(s)) => s.clone(),
        _ => otherwise.to_owned(),
    }
}

fn promote_pull_request(p: &Json) -> (r: Option<Promotion>)
    ensures
        opt_promotion(r) == pull_request(p@),
{
    let repo = string_or(p.get("repository"), "unknown");
    let number = match field_at(p, "raw", "pull_request", "number") {
        Some(n) => match n.as_u64() {
            Some(number) => text::decimal(number),
            None => {
                return None;
            },
        },
        None => {
            return None;
        },
    };
    let title = string_or(field_at(p, "raw", "pull_request", "title"), "(no title)");
    let who = string_or(p.get("sender"), "someone");
    let merged = match field_at(p, "raw", "pull_request", "merged") {
        Some(Json::Bool(b)) => *b,
        _ => false,
    };
    let outcome = if merged {
        "merged"
    } else {
        "closed without merging"
    };
    let mut content = "Pull request #".to_owned();
    content.append(number.as_str());
    content.append(" in ");
    content.append(repo.as_str());
    content.append(" — \"");
    content.append(title.as_str());
    content.append("\" — ");
    content.append(outcome);
    content.append(" by ");
    content.append(who.as_str());
    content.append(".");
    Some(Promotion { subject: text::cat3(repo.as_str(), "#pr-", number.as_str()), content })
}

fn promote_issue(p: &Json) -> (r: Option<Promotion>)
    ensures
        opt_promotion(r) == issue(p@),
{
    let repo = string_or(p.get("repository"), "unknown");
    let number = match field_at(p, "raw", "issue", "number") {
        Some(n) => match n.as_u64() {
            Some(number) => text::decimal(number),
            None => {
                return None;
            },
        },
        None => {
            return None;
        },
    };
    let title = string_or(field_at(p, "raw", "issue", "title"), "(no title)");
    let who = string_or(p.get("sender"), "someone");
    let body = string_or(field_at(p, "raw", "issue", "body"), "");
    let mut content = "Issue #".to_owned();
    content.append(number.as_str());
    content.append(" in ");
    content.append(repo.as_str());
    content.append(" — \"");
    content.append(title.as_str());
    content.append("\" — closed by ");
    content.append(who.as_str());
    content.append(".");
    let body_chars = text::chars(body.as_str());
    if !text::is_blank(&body_chars) {
        content.append("\n\n");
        content.append(text::string(text::trim(&body_chars)).as_str());
    }
    Some(Promotion { subject: text::cat3(repo.as_str(), "#issue-", number.as_str()), content })
}

fn promote_sentry(p: &Json) -> (r: Option<Promotion>)
    ensures
        opt_promotion(r) == sentry(p@),
{
    proof {
        reveal_strlit("");
        assert(""@ =~= seq![]);
    }
    let title = string_or(p.get("title"), "");
    if text::chars(title.as_str()).len() == 0 {
        return None;
    }
    let project = string_or(p.get("project"), "unknown");
    let level = string_or(p.get("level"), "error");
    let action = string_or(p.get("action"), "resolved");
    let mut content = "Sentry ".to_owned();
    content.append(level.as_str());
    content.append(" in ");
    content.append(project.as_str());
    content.append(" — \"");
    content.append(title.as_str());
    content.append("\" — ");
    content.append(action.as_str());
    content.append(".");
    Some(
        Promotion {
            subject: text::cat4("sentry/", project.as_str(), "#", slug(title.as_str()).as_str()),
            content,
        },
    )
}

fn promote_pagerduty(p: &Json, event_type: &str) -> (r: Option<Promotion>)
    ensures
        opt_promotion(r) == pagerduty(p@, event_type@),
{
    proof {
        reveal_strlit("");
        assert(""@ =~= seq![]);
    }
    let title = string_or(p.get("title"), "");
    if text::chars(title.as_str()).len() == 0 {
        return None;
    }
    let service = string_or(p.get("service"), "unknown");
    let mut content = "PagerDuty incident on ".to_owned();
    content.append(service.as_str());
    content.append(" — \"");
    content.append(title.as_str());
    content.append("\" — ");
    content.append(event_type);
    content.append(".");
    Some(
        Promotion {
            subject: text::cat4("pagerduty/", service.as_str(), "#", slug(title.as_str()).as_str()),
            content,
        },
    )
}

/// The memory that a promotable event becomes, or `None` where nothing useful is in it.
///
/// The identity of the subject lives in a different place for each vendor: a pull request has a
/// number, an alert only its title.
pub fn promote(event: &Event) -> (r: Option<Promotion>)
    ensures
        opt_promotion(r) == promotion(event.source@, event.event_type@, event.payload@),
{
    let v = vendor(event.source.as_str());
    let t = event.event_type.as_str();
    if text::same(v.as_str(), "github") && text::str_starts(t, "pull_request.") {
        promote_pull_request(&event.payload)
    } else if text::same(v.as_str(), "github") && text::str_starts(t, "issue.") {
        promote_issue(&event.payload)
    } else if text::same(v.as_str(), "sentry") {
        promote_sentry(&event.payload)
    } else if text::same(v.as_str(), "pagerduty") {
        promote_pagerduty(&event.payload, t)
    } else {
        None
    }
}

// ── Laws ─────────────────────────────────────────────────────────────────────────────

/// All states of one issue share a subject: it depends on the repository and the number alone.
pub proof fn law_issue_states_share_a_subject(
    source: Seq<char>,
    event_type: Seq<char>,
    other_type: Seq<char>,
    a: JsonView,
    b: JsonView,
)
    requires
        vendor_of(source) == "github"@,
        text::begins(event_type, "issue."@),
        text::begins(other_type, "issue."@),
        a.field("repository"@) == b.field("repository"@),
        at3(a, "raw"@, "issue"@, "number"@) == at3(b, "raw"@, "issue"@, "number"@),
    ensures
        match (promotion(source, event_type, a), promotion(source, other_type, b)) {
            (Some(p), Some(q)) => p.subject == q.subject,
            (None, None) => true,
            _ => false,
        },
{
    reveal_strlit("issue.");
    reveal_strlit("pull_request.");
    lemma_not_pull_request(event_type);
    lemma_not_pull_request(other_type);
}

/// All states of one pull request share a subject: it depends on the repository and the number
/// alone, so that a merge replaces what was said of it before.
pub proof fn law_pull_request_states_share_a_subject(
    source: Seq<char>,
    event_type: Seq<char>,
    other_type: Seq<char>,
    a: JsonView,
    b: JsonView,
)
    requires
        vendor_of(source) == "github"@,
        text::begins(event_type, "pull_request."@),
        text::begins(other_type, "pull_request."@),
        a.field("repository"@) == b.field("repository"@),
        at3(a, "raw"@, "pull_request"@, "number"@) == at3(b, "raw"@, "pull_request"@, "number"@),
    ensures
        match (promotion(source, event_type, a), promotion(source, other_type, b)) {
            (Some(p), Some(q)) => p.subject == q.subject,
            (None, None) => true,
            _ => false,
        },
{
}

proof fn lemma_not_pull_request(event_type: Seq<char>)
    requires
        text::begins(event_type, "issue."@),
    ensures
        !text::begins(event_type, "pull_request."@),
{
    reveal_strlit("issue.");
    reveal_strlit("pull_request.");
    assert(event_type.take("issue."@.len() as int)[0] == event_type[0]);
    if text::begins(event_type, "pull_request."@) {
        assert(event_type.take("pull_request."@.len() as int)[0] == event_type[0]);
    }
}

/// All alerts of one incident share a subject: it depends on the service and the title alone, and
/// not on how far the incident has come.
pub proof fn law_incident_states_share_a_subject(
    source: Seq<char>,
    event_type: Seq<char>,
    other_type: Seq<char>,
    a: JsonView,
    b: JsonView,
)
    requires
        vendor_of(source) == "pagerduty"@,
        a.field("service"@) == b.field("service"@),
        a.field("title"@) == b.field("title"@),
    ensures
        match (promotion(source, event_type, a), promotion(source, other_type, b)) {
            (Some(p), Some(q)) => p.subject == q.subject,
            (None, None) => true,
            _ => false,
        },
{
    reveal_strlit("pagerduty");
    reveal_strlit("github");
    reveal_strlit("sentry");
    assert("pagerduty"@.len() != "github"@.len());
    assert("pagerduty"@.len() != "sentry"@.len());
}

// ── Slugs ────────────────────────────────────────────────────────────────────────────

/// A character of a slug of an ASCII text.
pub open spec fn slug_char(c: char) -> bool {
    'a' <= c <= 'z' || '0' <= c <= '9' || c == '-'
}

/// Lower-case letters, digits and single dashes.
pub open spec fn plain(s: Seq<char>) -> bool {
    &&& forall|i: int| 0 <= i < s.len() ==> slug_char(#[trigger] s[i])
    &&& forall|i: int, j: int|
        0 <= i < s.len() && j == i + 1 && j < s.len() && #[trigger] s[i] == '-' ==> #[trigger] s[j]
            != '-'
}

/// A key as a slug makes it of an ASCII text: plain, with no dash at either end.
pub open spec fn slug_key(s: Seq<char>) -> bool {
    &&& plain(s)
    &&& s.len() > 0 ==> s[0] != '-' && s.last() != '-'
}

/// Where the scan of an ASCII text stands: what is written is plain and begins with no dash, and is
/// no longer than what was read.
spec fn scanned(s: Seq<char>, r: (Seq<char>, bool)) -> bool {
    &&& plain(r.0)
    &&& r.0.len() > 0 ==> r.0[0] != '-'
    &&& r.1 == (r.0.len() == 0 || r.0.last() == '-')
    &&& r.0.len() <= s.len()
    &&& r.0.len() == 0 <==> forall|i: int| 0 <= i < s.len() ==> !text::alnum(#[trigger] s[i])
}

proof fn lemma_scanned(s: Seq<char>)
    requires
        text::ascii(s),
    ensures
        scanned(s, slug_scan(s)),
    decreases s.len(),
{
    if s.len() > 0 {
        let rest = s.drop_last();
        let c = s.last();
        assert forall|i: int| 0 <= i < rest.len() implies #[trigger] rest[i] <= '\u{7f}' by {
            assert(rest[i] == s[i]);
        }
        lemma_scanned(rest);
        let before = slug_scan(rest);
        let after = slug_scan(s);
        assert(c == s[s.len() - 1]);
        assert(s =~= rest.push(c));
        if text::alnum(c) {
            assert(text::lower(c) =~= seq![text::ascii_lower(c)]);
            assert(after.0 =~= before.0.push(text::ascii_lower(c)));
            assert(slug_char(text::ascii_lower(c)) && text::ascii_lower(c) != '-');
            assert(text::alnum(s[s.len() - 1]));
        } else {
            if before.0.len() == 0 {
                assert forall|i: int| 0 <= i < s.len() implies !text::alnum(#[trigger] s[i]) by {
                    if i < rest.len() {
                        assert(rest[i] == s[i]);
                    }
                }
            }
        }
        if before.0.len() > 0 {
            let k = choose|k: int| 0 <= k < rest.len() && text::alnum(#[trigger] rest[k]);
            assert(s[k] == rest[k]);
        }
    }
}

/// Trimming dashes off what was scanned takes one dash at most.
proof fn lemma_dashes_trimmed(s: Seq<char>)
    requires
        plain(s),
        s.len() > 0 ==> s[0] != '-',
    ensures
        text::trimmed_both(s, Class::Dash) == if s.len() > 0 && s.last() == '-' {
            s.drop_last()
        } else {
            s
        },
        slug_key(text::trimmed_both(s, Class::Dash)),
        text::trimmed_both(s, Class::Dash).len() == 0 <==> s.len() == 0,
{
    assert(text::trimmed_lead(s, Class::Dash) == s);
    if s.len() > 0 && s.last() == '-' {
        let t = s.drop_last();
        assert(s[s.len() - 1] == '-');
        assert(s.len() > 1);
        if t.last() == '-' {
            assert(s[s.len() - 2] == '-');
        }
        reveal_with_fuel(text::trimmed_tail, 2);
        assert(text::trimmed_tail(t, Class::Dash) == t);
        assert forall|i: int| 0 <= i < t.len() implies slug_char(#[trigger] t[i]) by {
            assert(t[i] == s[i]);
        }
        assert forall|i: int, j: int|
            0 <= i < t.len() && j == i + 1 && j < t.len() && #[trigger] t[i] == '-' implies
            #[trigger] t[j] != '-' by {
            assert(s[i] == t[i] && s[j] == t[j]);
        }
    }
}

/// The scan of a key writes the key.
proof fn lemma_scan_of_key(s: Seq<char>)
    requires
        plain(s),
        s.len() > 0 ==> s[0] != '-',
    ensures
        slug_scan(s) == (s, s.len() == 0 || s.last() == '-'),
    decreases s.len(),
{
    if s.len() > 0 {
        let rest = s.drop_last();
        assert forall|i: int| 0 <= i < rest.len() implies slug_char(#[trigger] rest[i]) by {
            assert(rest[i] == s[i]);
        }
        assert forall|i: int, j: int|
            0 <= i < rest.len() && j == i + 1 && j < rest.len() && #[trigger] rest[i] == '-' implies
            #[trigger] rest[j] != '-' by {
            assert(s[i] == rest[i] && s[j] == rest[j]);
        }
        lemma_scan_of_key(rest);
        let c = s.last();
        assert(c == s[s.len() - 1]);
        assert(slug_char(c));
        if rest.len() > 0 && c == '-' {
            assert(rest.last() == s[s.len() - 2]);
            if s[s.len() - 2] == '-' {
                assert(s[s.len() - 1] != '-');
            }
        }
        if text::alnum(c) {
            assert(text::lower(c) =~= seq![c]);
            assert(rest + text::lower(c) =~= s);
        } else {
            assert(rest.push('-') =~= s);
        }
    }
}

/// The slug of an ASCII text is a stable key: up to 120 lower-case letters, digits and single
/// dashes, with no dash at either end; the slug of a slug is that slug; and it is empty exactly
/// where none of the first 120 characters is a letter or a digit.
pub proof fn law_slugs_are_keys(s: Seq<char>)
    requires
        text::ascii(s),
    ensures
        slug_of(s).len() <= 120,
        slug_key(slug_of(s)),
        slug_of(slug_of(s)) == slug_of(s),
        slug_of(s).len() == 0 <==> forall|i: int|
            0 <= i < text::first_chars(s, 120).len() ==> !text::ascii_alnum(
                #[trigger] text::first_chars(s, 120)[i],
            ),
{
    let head = text::first_chars(s, 120);
    assert forall|i: int| 0 <= i < head.len() implies #[trigger] head[i] <= '\u{7f}' by {
        assert(head[i] == s[i]);
    }
    lemma_scanned(head);
    let scan = slug_scan(head);
    lemma_dashes_trimmed(scan.0);
    let r = slug_of(s);
    lemma_scan_of_key(r);
    assert(text::first_chars(r, 120) == r);
    lemma_dashes_trimmed(r);
    if r.len() == 0 {
        assert forall|i: int| 0 <= i < head.len() implies !text::ascii_alnum(
            #[trigger] head[i],
        ) by {
            assert(!text::alnum(head[i]));
        }
    } else {
        let k = choose|k: int| 0 <= k < head.len() && text::alnum(#[trigger] head[k]);
        assert(text::ascii_alnum(head[k]));
    }
}

/// A key of up to 120 characters is its own slug: no letter and no digit of it is lost.
pub proof fn law_keys_are_their_own_slugs(s: Seq<char>)
    requires
        s.len() <= 120,
        forall|i: int|
            0 <= i < s.len() ==> 'a' <= #[trigger] s[i] <= 'z' || '0' <= s[i] <= '9' || s[i] == '-',
        forall|i: int, j: int|
            0 <= i < s.len() && j == i + 1 && j < s.len() && #[trigger] s[i] == '-' ==> #[trigger] s[j]
                != '-',
        s.len() > 0 ==> s[0] != '-' && s.last() != '-',
    ensures
        slug_of(s) == s,
{
    lemma_scan_of_key(s);
    assert(text::first_chars(s, 120) == s);
    lemma_dashes_trimmed(s);
}

/// The slug of an ASCII text does not depend on its case.
pub proof fn law_slugs_ignore_case(s: Seq<char>, t: Seq<char>)
    requires
        text::ascii(s),
        text::ascii(t),
        text::ascii_lowered(s) == text::ascii_lowered(t),
    ensures
        slug_of(s) == slug_of(t),
{
    let a = text::first_chars(s, 120);
    let b = text::first_chars(t, 120);
    assert(text::ascii_lowered(s).len() == s.len());
    assert(text::ascii_lowered(t).len() == t.len());
    assert forall|i: int| 0 <= i < a.len() implies #[trigger] a[i] <= '\u{7f}' && b[i] <= '\u{7f}'
        && text::ascii_lower(a[i]) == text::ascii_lower(b[i]) by {
        assert(a[i] == s[i] && b[i] == t[i]);
        assert(s[i] <= '\u{7f}' && t[i] <= '\u{7f}');
        assert(text::ascii_lowered(s)[i] == text::ascii_lower(s[i]));
        assert(text::ascii_lowered(t)[i] == text::ascii_lower(t[i]));
    }
    lemma_scan_ignores_case(a, b);
}

proof fn lemma_scan_ignores_case(a: Seq<char>, b: Seq<char>)
    requires
        a.len() == b.len(),
        forall|i: int|
            0 <= i < a.len() ==> #[trigger] a[i] <= '\u{7f}' && b[i] <= '\u{7f}'
                && text::ascii_lower(a[i]) == text::ascii_lower(b[i]),
    ensures
        slug_scan(a) == slug_scan(b),
    decreases a.len(),
{
    if a.len() > 0 {
        let x = a.drop_last();
        let y = b.drop_last();
        assert forall|i: int| 0 <= i < x.len() implies #[trigger] x[i] <= '\u{7f}' && y[i]
            <= '\u{7f}' && text::ascii_lower(x[i]) == text::ascii_lower(y[i]) by {
            assert(x[i] == a[i] && y[i] == b[i]);
        }
        lemma_scan_ignores_case(x, y);
        assert(a[a.len() - 1] == a.last() && b[b.len() - 1] == b.last());
        assert(text::alnum(a.last()) == text::alnum(b.last()));
    }
}

} // verus!
