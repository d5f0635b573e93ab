//! What can go wrong.

use vstd::prelude::*;

verus! {

/// An error: which part it comes from, and what it says.
#[derive(Debug, Clone, PartialEq, Eq)]
pub enum Error {
    Config(String),
    Embedding(String),
    Ingest(String),
    Internal(String),
    Llm(String),
    Query(String),
    State(String),
    Storage(String),
    Validation(String),
}

pub enum ErrorView {
    Config(Seq<char>),
    Embedding(Seq<char>),
    Ingest(Seq<char>),
    Internal(Seq<char>),
    Llm(Seq<char>),
    Query(Seq<char>),
    State(Seq<char>),
    Storage(Seq<char>),
    Validation(Seq<char>),
}

impl View for Error {
    type V = ErrorView;

    open spec fn view(&self) -> ErrorView {
        match *self {
            Error::Config(s) => ErrorView::Config(s@),
            Error::Embedding(s) => ErrorView::Embedding(s@),
            Error::Ingest(s) => ErrorView::Ingest(s@),
            Error::Internal(s) => ErrorView::Internal(s@),
            Error::Llm(s) => ErrorView::Llm(s@),
            Error::Query(s) => ErrorView::Query(s@),
            Error::State(s) => ErrorView::State(s@),
            Error::Storage(s) => ErrorView::Storage(s@),
            Error::Validation(s) => ErrorView::Validation(s@),
        }
    }
}

} // verus!
