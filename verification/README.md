# ecphoria-core

The core of a memory store for agents, with its rules verified in Verus.

Memories are facts with a history. Writing a fact about a subject closes the version before it and
keeps it; writing the same fact again confirms it. Documents are cut along their headings and kept
section by section. Searches fuse what words, vectors and a graph of entities find. Agents run on a
journal, so that a run can be taken up where it was left.

## Layout

- `src/` is the library: every rule as a function on plain values, with a contract that Verus proves.
  - `ingest/`: cutting Markdown into chunks, and turning webhook events into memories.
  - `memory/`: what a memory, an event and a fact are; JSON schemas; the lexical query language; the
    log of searches.
  - `engine/`: what a write, a batch, an import, a search, a review, a consolidation, a retention
    sweep or a backup comes to.
  - `runtime/`: the ledger of agent runs, the agent loop as a state machine, workflows.
  - `query/`: which tables a query reads, and how a query is confined to one tenant.
  - `text.rs`, `json.rs`, `score.rs`, `time.rs`, `ids.rs`, `seqs.rs`, `error.rs`: what the rest is
    written in.
- `tests/` run the library on concrete values, with the outside crates linked.
- `app/` is the engine around the library: stores, providers, files, clocks and floating point.

## What is proved

Contracts are stated over mathematical models: a string is a sequence of characters, a list of
memories a sequence of their views, an instant a number of nanoseconds. Proof functions named
`law_...` state what holds of several functions together, for instance that at every instant exactly
one version of a subject holds (`engine/plan_laws.rs`), that a batch comes to what its memories come
to one by one (`engine/batch.rs`), that importing a document again changes nothing
(`engine/import_laws.rs`), that every hit of a search is active and of the scope and the project that
were asked for (`engine/search.rs`), that chunking loses no text (`ingest/fidelity.rs`), that a query
that was confined to a tenant names no base table (`query/sql_guard.rs`), and that an outside call
whose result is in the journal is not made again (`runtime/agent_laws.rs`).

Floating-point numbers appear in the library as their bits. They are compared there, and computed
with only in `app/`.
