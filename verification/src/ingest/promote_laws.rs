//! What a promoted event says, and which events a rule asks for.

use vstd::prelude::*;

use crate::ingest::promote::{at3, covers, promotion, slug_of, vendor_of, PromotionView};
use crate::json::JsonView;
use crate::text::{ascii_lowered, begins, blank, decimal_of, find, lemma_find, trimmed};

verus! {

/// The vendor of a source is what stands before its first slash, or all of it.
pub proof fn law_vendors_stand_before_the_slash(vendor: Seq<char>, rest: Seq<char>)
    requires
        !vendor.contains('/'),
    ensures
        vendor_of(vendor + "/"@ + rest) == vendor,
        vendor_of(vendor) == vendor,
{
    reveal_strlit("/");
    let source = vendor + "/"@ + rest;
    assert(source.take(vendor.len() as int) =~= vendor);
    lemma_first_at(source, vendor, '/');
    lemma_find(vendor, '/');
    assert(find(vendor, '/') == vendor.len()) by {
        if find(vendor, '/') < vendor.len() {
            assert(vendor.contains(vendor[find(vendor, '/')]));
        }
    }
    assert(vendor.take(vendor.len() as int) =~= vendor);
}

proof fn lemma_first_at(s: Seq<char>, head: Seq<char>, c: char)
    requires
        !head.contains(c),
        head.len() < s.len(),
        s.take(head.len() as int) == head,
        s[head.len() as int] == c,
    ensures
        find(s, c) == head.len(),
{
    lemma_find(s, c);
    let k = find(s, c);
    if k < head.len() {
        assert(s.take(head.len() as int)[k] == s[k]);
        assert(head.contains(head[k]));
    }
}

/// A rule covers an event where it covers both its vendor and its type: a star covers any, a vendor
/// is compared without regard to case, and a type that ends in a star covers what begins with what
/// stands before it. A rule without a colon covers nothing.
pub proof fn law_rules_cover_vendor_and_type(
    want_vendor: Seq<char>,
    want_type: Seq<char>,
    vendor: Seq<char>,
    event_type: Seq<char>,
)
    requires
        !want_vendor.contains(':'),
    ensures
        covers(want_vendor + ":"@ + want_type, vendor, event_type) <==> (want_vendor == "*"@
            || ascii_lowered(want_vendor) == ascii_lowered(vendor)) && (want_type == "*"@
            || want_type == event_type || (want_type.len() > 0 && want_type.last() == '*'
            && want_type.len() - 1 <= event_type.len() && event_type.take(want_type.len() - 1)
            == want_type.drop_last())),
        !covers(want_vendor, vendor, event_type),
{
    reveal_strlit(":");
    let rule = want_vendor + ":"@ + want_type;
    assert(rule.take(want_vendor.len() as int) =~= want_vendor);
    lemma_first_at(rule, want_vendor, ':');
    assert(rule.skip(want_vendor.len() as int + 1) =~= want_type);
    lemma_find(want_vendor, ':');
    if find(want_vendor, ':') < want_vendor.len() {
        assert(want_vendor.contains(want_vendor[find(want_vendor, ':')]));
    }
}

proof fn lemma_vendor_names()
    ensures
        "github"@ != "sentry"@,
        "github"@ != "pagerduty"@,
        "sentry"@ != "pagerduty"@,
{
    reveal_strlit("github");
    reveal_strlit("sentry");
    reveal_strlit("pagerduty");
    assert("github"@[0] == 'g' && "sentry"@[0] == 's' && "pagerduty"@[0] == 'p');
}

proof fn lemma_issue_is_no_pull_request(event_type: Seq<char>)
    requires
        begins(event_type, "issue."@),
    ensures
        !begins(event_type, "pull_request."@),
{
    reveal_strlit("issue.");
    reveal_strlit("pull_request.");
    assert("issue."@[0] == 'i' && "pull_request."@[0] == 'p');
    assert(event_type.take("issue."@.len() as int)[0] == event_type[0]);
    if begins(event_type, "pull_request."@) {
        assert(event_type.take("pull_request."@.len() as int)[0] == event_type[0]);
    }
}

/// Only events of the known vendors become memories; of the others, and of other kinds of events,
/// nothing is told.
pub proof fn law_other_events_are_not_told(
    source: Seq<char>,
    event_type: Seq<char>,
    payload: JsonView,
)
    ensures
        promotion(source, event_type, payload) is Some ==> vendor_of(source) == "github"@ || vendor_of(
            source,
        ) == "sentry"@ || vendor_of(source) == "pagerduty"@,
        promotion(source, event_type, payload) is Some && vendor_of(source) == "github"@ ==> begins(
            event_type,
            "pull_request."@,
        ) || begins(event_type, "issue."@),
{
    lemma_vendor_names();
}

/// A pull request is told by its number: under its repository, with its title, who closed it, and
/// whether it was merged. Without a number it is not told.
pub proof fn law_pull_requests_are_told(
    source: Seq<char>,
    event_type: Seq<char>,
    p: JsonView,
    repo: Seq<char>,
    title: Seq<char>,
    who: Seq<char>,
    number: nat,
)
    requires
        vendor_of(source) == "github"@,
        begins(event_type, "pull_request."@),
        p.field("repository"@) == Some(JsonView::Str(repo)),
        p.field("sender"@) == Some(JsonView::Str(who)),
        at3(p, "raw"@, "pull_request"@, "title"@) == Some(JsonView::Str(title)),
    ensures
        at3(p, "raw"@, "pull_request"@, "number"@) is Some && at3(
            p,
            "raw"@,
            "pull_request"@,
            "number"@,
        )->0.unsigned() == Some(number as int) ==> promotion(source, event_type, p) == Some(
            PromotionView {
                subject: repo + "#pr-"@ + decimal_of(number),
                content: "Pull request #"@ + decimal_of(number) + " in "@ + repo + " — \""@ + title
                    + "\" — "@ + (if at3(p, "raw"@, "pull_request"@, "merged"@) == Some(
                    JsonView::Bool(true),
                ) {
                    "merged"@
                } else {
                    "closed without merging"@
                }) + " by "@ + who + "."@,
            },
        ),
        at3(p, "raw"@, "pull_request"@, "number"@) is None ==> promotion(source, event_type, p) is None,
{
}

/// An issue is told by its number: under its repository, with its title, who closed it, and its
/// text, where it has one. Without a number it is not told.
pub proof fn law_issues_are_told(
    source: Seq<char>,
    event_type: Seq<char>,
    p: JsonView,
    repo: Seq<char>,
    title: Seq<char>,
    who: Seq<char>,
    body: Seq<char>,
    number: nat,
)
    requires
        vendor_of(source) == "github"@,
        begins(event_type, "issue."@),
        p.field("repository"@) == Some(JsonView::Str(repo)),
        p.field("sender"@) == Some(JsonView::Str(who)),
        at3(p, "raw"@, "issue"@, "title"@) == Some(JsonView::Str(title)),
        at3(p, "raw"@, "issue"@, "body"@) == Some(JsonView::Str(body)),
    ensures
        at3(p, "raw"@, "issue"@, "number"@) is Some && at3(
            p,
            "raw"@,
            "issue"@,
            "number"@,
        )->0.unsigned() == Some(number as int) ==> ({
            let line = "Issue #"@ + decimal_of(number) + " in "@ + repo + " — \""@ + title
                + "\" — closed by "@ + who + "."@;
            promotion(source, event_type, p) == Some(
                PromotionView {
                    subject: repo + "#issue-"@ + decimal_of(number),
                    content: if blank(body) {
                        line
                    } else {
                        line + "\n\n"@ + trimmed(body)
                    },
                },
            )
        }),
        at3(p, "raw"@, "issue"@, "number"@) is None ==> promotion(source, event_type, p) is None,
{
    lemma_issue_is_no_pull_request(event_type);
}

/// An error is told by its title, under its project: how bad it was and what became of it.
pub proof fn law_errors_are_told(
    source: Seq<char>,
    event_type: Seq<char>,
    p: JsonView,
    title: Seq<char>,
    project: Seq<char>,
    level: Seq<char>,
    action: Seq<char>,
)
    requires
        vendor_of(source) == "sentry"@,
        p.field("title"@) == Some(JsonView::Str(title)),
        p.field("project"@) == Some(JsonView::Str(project)),
        p.field("level"@) == Some(JsonView::Str(level)),
        p.field("action"@) == Some(JsonView::Str(action)),
    ensures
        title.len() > 0 ==> promotion(source, event_type, p) == Some(
            PromotionView {
                subject: "sentry/"@ + project + "#"@ + slug_of(title),
                content: "Sentry "@ + level + " in "@ + project + " — \""@ + title + "\" — "@
                    + action + "."@,
            },
        ),
        title.len() == 0 ==> promotion(source, event_type, p) is None,
{
    lemma_vendor_names();
}

/// An incident is told by its title, under its service: what happened to it.
pub proof fn law_incidents_are_told(
    source: Seq<char>,
    event_type: Seq<char>,
    p: JsonView,
    title: Seq<char>,
    service: Seq<char>,
)
    requires
        vendor_of(source) == "pagerduty"@,
        p.field("title"@) == Some(JsonView::Str(title)),
        p.field("service"@) == Some(JsonView::Str(service)),
    ensures
        title.len() > 0 ==> promotion(source, event_type, p) == Some(
            PromotionView {
                subject: "pagerduty/"@ + service + "#"@ + slug_of(title),
                content: "PagerDuty incident on "@ + service + " — \""@ + title + "\" — "@
                    + event_type + "."@,
            },
        ),
        title.len() == 0 ==> promotion(source, event_type, p) is None,
{
    lemma_vendor_names();
}

/// What an event leaves out is filled in: an event that names nothing but its number, or its title,
/// is told all the same.
pub proof fn law_gaps_are_filled(source: Seq<char>, event_type: Seq<char>, p: JsonView, number: nat)
    requires
        p.field("repository"@) is None && p.field("sender"@) is None,
        p.field("project"@) is None && p.field("service"@) is None,
        p.field("level"@) is None && p.field("action"@) is None,
    ensures
        vendor_of(source) == "github"@ && begins(event_type, "pull_request."@) && at3(
            p,
            "raw"@,
            "pull_request"@,
            "number"@,
        ) is Some && at3(p, "raw"@, "pull_request"@, "number"@)->0.unsigned() == Some(number as int)
            ==> promotion(source, event_type, p) is Some && promotion(
            source,
            event_type,
            p,
        )->0.subject == "unknown"@ + "#pr-"@ + decimal_of(number),
        vendor_of(source) == "github"@ && begins(event_type, "issue."@) && at3(
            p,
            "raw"@,
            "issue"@,
            "number"@,
        ) is Some && at3(p, "raw"@, "issue"@, "number"@)->0.unsigned() == Some(number as int)
            ==> promotion(source, event_type, p) is Some && promotion(
            source,
            event_type,
            p,
        )->0.subject == "unknown"@ + "#issue-"@ + decimal_of(number),
        vendor_of(source) == "sentry"@ && p.field("title"@) is Some && p.field("title"@)->0 is Str
            && p.field("title"@)->0->Str_0.len() > 0 ==> promotion(source, event_type, p) == Some(
            PromotionView {
                subject: "sentry/"@ + "unknown"@ + "#"@ + slug_of(p.field("title"@)->0->Str_0),
                content: "Sentry "@ + "error"@ + " in "@ + "unknown"@ + " — \""@ + p.field(
                    "title"@,
                )->0->Str_0 + "\" — "@ + "resolved"@ + "."@,
            },
        ),
{
    lemma_vendor_names();
    if begins(event_type, "issue."@) {
        lemma_issue_is_no_pull_request(event_type);
    }
}

} // verus!
