//! Match expressions for the full-text index.
//!
//! The index takes its queries in a language of its own, with operators and punctuation. A search
//! text is taken apart into terms, and each term is quoted as a literal phrase. Identifiers, ticket
//! keys and dotted paths stay whole.

use vstd::prelude::*;

use crate::text;
use crate::text::{joined, replaced, trimmed_both, views, Class};

verus! {

broadcast use vstd::string::group_string_axioms;

/// One memory as the index stores it.
#[derive(Debug, Clone)]
pub struct LexicalEntry {
    pub id: u128,
    /// The partition of its exact scope.
    pub scope_key: String,
    /// The project within that scope.
    pub project: Option<String>,
    pub subject: Option<String>,
    pub content: String,
}

/// Is this a character of a term?
pub open spec fn term_char(c: char) -> bool {
    text::alnum(c) || c == '-' || c == '_' || c == '.'
}

/// Where the splitting of a text into pieces stands.
pub struct Pieces {
    pub done: Seq<Seq<char>>,
    pub current: Seq<char>,
}

pub open spec fn pieces_scan(s: Seq<char>) -> Pieces
    decreases s.len(),
{
    if s.len() == 0 {
        Pieces { done: seq![], current: seq![] }
    } else {
        let p = pieces_scan(s.drop_last());
        if term_char(s.last()) {
            Pieces { done: p.done, current: p.current.push(s.last()) }
        } else {
            Pieces { done: p.done.push(p.current), current: seq![] }
        }
    }
}

/// The pieces of a text between the characters that belong to no term.
pub open spec fn pieces(s: Seq<char>) -> Seq<Seq<char>> {
    let p = pieces_scan(s);
    p.done.push(p.current)
}

/// The term of a piece: without punctuation at its edges, in lower case, and no stop word.
pub open spec fn term_of(piece: Seq<char>, stop_words: Seq<Seq<char>>) -> Option<Seq<char>> {
    let t = trimmed_both(piece, Class::Edge);
    if t.len() == 0 || stop_words.contains(text::lowered(t)) {
        None
    } else {
        Some(text::lowered(t))
    }
}

pub open spec fn terms_of(pieces: Seq<Seq<char>>, stop_words: Seq<Seq<char>>) -> Seq<Seq<char>>
    decreases pieces.len(),
{
    if pieces.len() == 0 {
        seq![]
    } else {
        let before = terms_of(pieces.drop_last(), stop_words);
        match term_of(pieces.last(), stop_words) {
            Some(t) => before.push(t),
            None => before,
        }
    }
}

/// A term as a literal phrase: between quotation marks, with those inside doubled.
pub open spec fn phrase(t: Seq<char>) -> Seq<char> {
    "\""@ + replaced(t, "\""@, "\"\""@) + "\""@
}

pub open spec fn phrases(terms: Seq<Seq<char>>) -> Seq<Seq<char>> {
    terms.map_values(|t: Seq<char>| phrase(t))
}

/// The match expression of a search text: any of its terms, or nothing where it has none.
pub open spec fn match_expr(query: Seq<char>, stop_words: Seq<Seq<char>>) -> Option<Seq<char>> {
    let terms = terms_of(pieces(query), stop_words);
    if terms.len() == 0 {
        None
    } else {
        Some(joined(phrases(terms), " OR "@))
    }
}

fn split_pieces(query: &str) -> (r: Vec<String>)
    ensures
        views(r@) == pieces(query@),
{
    let cs = text::chars(query);
    let mut done: Vec<String> = Vec::new();
    let mut current: Vec<char> = Vec::new();
    let mut i: usize = 0;
    proof {
        assert(cs@.take(0) =~= seq![]);
        assert(views(done@) =~= seq![]);
        assert(current@ =~= seq![]);
    }
    while i < cs.len()
        invariant
            i <= cs.len(),
            ({
                let p = pieces_scan(cs@.take(i as int));
                &&& p.done == views(done@)
                &&& p.current == current@
            }),
        decreases cs.len() - i,
    {
        let c = cs[i];
        let ghost before = done@;
        proof {
            assert(cs@.take(i + 1).drop_last() =~= cs@.take(i as int));
            assert(cs@.take(i + 1).last() == c);
        }
        if c.is_alphanumeric() || c == '-' || c == '_' || c == '.' {
            current.push(c);
        } else {
            done.push(text::string(&current));
            proof {
                assert(views(done@) =~= views(before).push(current@));
            }
            current = Vec::new();
            proof {
                assert(current@ =~= seq![]);
            }
        }
        i += 1;
    }
    proof {
        assert(cs@.take(cs@.len() as int) =~= cs@);
    }
    let ghost before = done@;
    done.push(text::string(&current));
    proof {
        assert(views(done@) =~= views(before).push(current@));
    }
    done
}

fn quote_term(t: &str) -> (r: String)
    ensures
        r@ == phrase(t@),
{
    proof {
        reveal_strlit("\"");
    }
    text::cat3("\"", text::replace(t, "\"", "\"\"").as_str(), "\"")
}

/// The match expression of a search text, or `None` where nothing usable is in it. Every term is
/// quoted, so that no word of the text is read as an operator.
pub fn build_match_expr(query: &str, stop_words: &Vec<String>) -> (r: Option<String>)
    ensures
        text::opt_view(r) == match_expr(query@, views(stop_words@)),
{
    let parts = split_pieces(query);
    let ghost all = pieces(query@);
    let ghost stops = views(stop_words@);
    let mut out: Vec<String> = Vec::new();
    let mut i: usize = 0;
    proof {
        assert(all.take(0) =~= seq![]);
        assert(views(out@) =~= phrases(terms_of(all.take(0), stops)));
    }
    while i < parts.len()
        invariant
            i <= parts.len(),
            all == views(parts@),
            stops == views(stop_words@),
            views(out@) == phrases(terms_of(all.take(i as int), stops)),
        decreases parts.len() - i,
    {
        proof {
            assert(all.take(i + 1).drop_last() =~= all.take(i as int));
            assert(all.take(i + 1).last() == parts@[i as int]@);
        }
        let cs = text::chars(parts[i].as_str());
        let t = text::trim_tail(text::trim_lead(&cs, Class::Edge), Class::Edge);
        if t.len() > 0 {
            let lower = text::string(t).as_str().to_lowercase();
            if !text::one_of(stop_words, lower.as_str()) {
                let ghost before = out@;
                let ghost terms = terms_of(all.take(i as int), stops);
                out.push(quote_term(lower.as_str()));
                proof {
                    assert(views(out@) =~= views(before).push(phrase(lower@)));
                    assert(phrases(terms.push(lower@)) =~= phrases(terms).push(phrase(lower@)));
                }
            }
        }
        i += 1;
    }
    proof {
        assert(all.take(all.len() as int) =~= all);
        assert(phrases(terms_of(all, stops)).len() == terms_of(all, stops).len());
    }
    if out.len() == 0 {
        None
    } else {
        Some(text::join(&out, " OR "))
    }
}

/// A phrase reads as its term: the index undoes the doubling of the quotation marks.
pub proof fn law_phrases_read_as_their_terms(t: Seq<char>)
    ensures
        replaced(replaced(t, "\""@, "\"\""@), "\"\""@, "\""@) == t,
    decreases t.len(),
{
    reveal_strlit("\"");
    reveal_strlit("\"\"");
    let one = "\""@;
    let two = "\"\""@;
    let d = replaced(t, one, two);
    if t.len() > 0 {
        let rest = t.drop_first();
        law_phrases_read_as_their_terms(rest);
        if t[0] == '"' {
            assert(t.take(1) =~= one);
            assert(t.skip(1) =~= rest);
            assert(d == two + replaced(rest, one, two));
            assert(d.take(2) =~= two);
            assert(d.skip(2) =~= replaced(rest, one, two));
            assert(replaced(d, two, one) == one + rest);
        } else {
            assert(t.take(1)[0] != '"');
            assert(!text::begins(t, one));
            assert(d == seq![t[0]] + replaced(rest, one, two));
            assert(d[0] == t[0]);
            if d.len() >= 2 {
                assert(d.take(2)[0] != '"');
            }
            assert(!text::begins(d, two));
            assert(d.drop_first() =~= replaced(rest, one, two));
        }
        assert(replaced(d, two, one) =~= t);
    } else {
        assert(d =~= seq![]);
        assert(replaced(d, two, one) =~= t);
    }
}

} // verus!
