//! What a configuration asks for.

use vstd::prelude::*;

use crate::text;

verus! {

broadcast use vstd::string::group_string_axioms;

/// Who makes the embeddings.
#[derive(Debug, Clone, Copy, PartialEq, Eq, Structural)]
pub enum EmbeddingChoice {
    Ollama,
    /// The protocol of OpenAI, there or elsewhere.
    OpenAi,
    /// A model in this process.
    Local,
    /// Nobody.
    Off,
    /// Nobody, because the name is not known, or a key is missing.
    Unknown,
}

/// The provider of embeddings of a name. OpenAI itself asks for a key; what only speaks its protocol
/// may not.
pub open spec fn embedding_choice(provider: Seq<char>, openai_key: Seq<char>) -> EmbeddingChoice {
    if provider == "ollama"@ {
        EmbeddingChoice::Ollama
    } else if (provider == "openai"@ && openai_key.len() > 0) || provider == "openai_compatible"@
        || provider == "openai-compatible"@ {
        EmbeddingChoice::OpenAi
    } else if provider == "local"@ || provider == "fastembed"@ {
        EmbeddingChoice::Local
    } else if provider == "none"@ || provider == ""@ {
        EmbeddingChoice::Off
    } else {
        EmbeddingChoice::Unknown
    }
}

fn is_set(s: &str) -> (r: bool)
    ensures
        r == (s@.len() > 0),
{
    text::chars(s).len() > 0
}

/// Chooses the provider of embeddings.
pub fn choose_embedding(provider: &str, openai_key: &str) -> (r: EmbeddingChoice)
    ensures
        r == embedding_choice(provider@, openai_key@),
{
    if text::same(provider, "ollama") {
        EmbeddingChoice::Ollama
    } else if (text::same(provider, "openai") && is_set(openai_key)) || text::same(
        provider,
        "openai_compatible",
    ) || text::same(provider, "openai-compatible") {
        EmbeddingChoice::OpenAi
    } else if text::same(provider, "local") || text::same(provider, "fastembed") {
        EmbeddingChoice::Local
    } else if text::same(provider, "none") || text::same(provider, "") {
        EmbeddingChoice::Off
    } else {
        EmbeddingChoice::Unknown
    }
}

/// Who completes texts.
#[derive(Debug, Clone, Copy, PartialEq, Eq, Structural)]
pub enum CompletionChoice {
    Ollama,
    OpenAi,
    Anthropic,
    /// A command on this machine.
    Command,
    /// Nobody.
    Off,
}

/// Who completes texts, where `command` is the name under which a command on this machine does.
pub open spec fn completion_choice(
    provider: Seq<char>,
    command: Seq<char>,
    openai_key: Seq<char>,
    anthropic_key: Seq<char>,
) -> CompletionChoice {
    if provider == "ollama"@ {
        CompletionChoice::Ollama
    } else if provider == "openai"@ && openai_key.len() > 0 {
        CompletionChoice::OpenAi
    } else if provider == "anthropic"@ && anthropic_key.len() > 0 {
        CompletionChoice::Anthropic
    } else if provider == command {
        CompletionChoice::Command
    } else {
        CompletionChoice::Off
    }
}

/// Chooses who completes texts.
pub fn choose_completion(
    provider: &str,
    command: &str,
    openai_key: &str,
    anthropic_key: &str,
) -> (r: CompletionChoice)
    ensures
        r == completion_choice(provider@, command@, openai_key@, anthropic_key@),
{
    if text::same(provider, "ollama") {
        CompletionChoice::Ollama
    } else if text::same(provider, "openai") && is_set(openai_key) {
        CompletionChoice::OpenAi
    } else if text::same(provider, "anthropic") && is_set(anthropic_key) {
        CompletionChoice::Anthropic
    } else if text::same(provider, command) {
        CompletionChoice::Command
    } else {
        CompletionChoice::Off
    }
}

/// Who takes a second look at what a search found.
#[derive(Debug, Clone, Copy, PartialEq, Eq, Structural)]
pub enum RerankChoice {
    /// A language model.
    Model(CompletionChoice),
    /// A language model was asked for, and there is none.
    Unavailable,
    /// A cross-encoder in this process.
    CrossEncoder,
    /// Nobody.
    Off,
    /// Nobody, because the name is not known.
    Unknown,
}

pub open spec fn rerank_choice(
    provider: Seq<char>,
    backend: Seq<char>,
    command: Seq<char>,
    openai_key: Seq<char>,
    anthropic_key: Seq<char>,
) -> RerankChoice {
    if provider == "llm"@ {
        let model = completion_choice(backend, command, openai_key, anthropic_key);
        if model == CompletionChoice::Off {
            RerankChoice::Unavailable
        } else {
            RerankChoice::Model(model)
        }
    } else if provider == "cross_encoder"@ {
        RerankChoice::CrossEncoder
    } else if provider == "none"@ || provider == ""@ {
        RerankChoice::Off
    } else {
        RerankChoice::Unknown
    }
}

/// Chooses who takes a second look.
pub fn choose_reranker(
    provider: &str,
    backend: &str,
    command: &str,
    openai_key: &str,
    anthropic_key: &str,
) -> (r: RerankChoice)
    ensures
        r == rerank_choice(provider@, backend@, command@, openai_key@, anthropic_key@),
{
    if text::same(provider, "llm") {
        match choose_completion(backend, command, openai_key, anthropic_key) {
            CompletionChoice::Off => RerankChoice::Unavailable,
            model => RerankChoice::Model(model),
        }
    } else if text::same(provider, "cross_encoder") {
        RerankChoice::CrossEncoder
    } else if text::same(provider, "none") || text::same(provider, "") {
        RerankChoice::Off
    } else {
        RerankChoice::Unknown
    }
}

/// Is a store kept in memory alone?
pub open spec fn in_memory(path: Seq<char>) -> bool {
    path == ":memory:"@
}

pub fn is_in_memory(path: &str) -> (r: bool)
    ensures
        r == in_memory(path@),
{
    text::same(path, ":memory:")
}

/// Is the index of event vectors kept on disk?
pub open spec fn persistent(index_dir: Seq<char>) -> bool {
    index_dir.len() > 0 && !in_memory(index_dir)
}

/// Is the index of event vectors written to disk?
pub fn persists_index(index_dir: &str) -> (r: bool)
    ensures
        r == persistent(index_dir@),
{
    is_set(index_dir) && !is_in_memory(index_dir)
}

/// Is the index of event vectors read back from disk? It is where the events themselves are kept.
pub fn reloads_index(episodic_path: &str, index_dir: &str) -> (r: bool)
    ensures
        r == (!in_memory(episodic_path@) && persistent(index_dir@)),
{
    !is_in_memory(episodic_path) && persists_index(index_dir)
}

/// Are blobs kept in S3? The name is read in any case.
pub fn stores_in_s3(engine: &str) -> (r: bool)
    ensures
        r == (text::ascii_lowered(engine@) == text::ascii_lowered("s3"@)),
{
    text::same_ignoring_case(&text::chars(engine), &text::chars("s3"))
}

/// How many rows a caller gets at most.
pub fn page_limit(limit: usize, max_rows: usize) -> (r: usize)
    ensures
        r == if limit <= max_rows {
            limit
        } else {
            max_rows
        },
{
    if limit <= max_rows {
        limit
    } else {
        max_rows
    }
}

/// How many memories are read at a time while the lexical index is rebuilt.
pub const PAGE: usize = 2000;

/// Where rebuilding the lexical index stands.
#[derive(Debug, Clone, Copy, PartialEq, Eq, Structural)]
pub enum Rebuild {
    /// The page from here on is wanted.
    From(usize),
    /// All memories were read: so many.
    Done(usize),
}

pub open spec fn rebuilt(offset: usize, n: usize) -> Rebuild {
    if n < PAGE {
        Rebuild::Done((offset + n) as usize)
    } else {
        Rebuild::From((offset + n) as usize)
    }
}

/// Goes on after a page of `n` memories that were read from `offset` on. A page that is not full is
/// the last one.
pub fn rebuild_lexical_index(offset: usize, n: usize) -> (r: Rebuild)
    requires
        offset + n <= usize::MAX,
    ensures
        r == rebuilt(offset, n),
{
    if n < PAGE {
        Rebuild::Done(offset + n)
    } else {
        Rebuild::From(offset + n)
    }
}

/// The pages that were read are all there is: from a corpus of `total` memories, a page that is not
/// the last leaves more to read, and the last one ends at the end.
pub proof fn law_rebuilding_reads_every_memory(offset: usize, n: usize, total: usize)
    requires
        offset <= total,
        n == if total - offset < PAGE {
            total - offset
        } else {
            PAGE as int
        },
    ensures
        rebuilt(offset, n) matches Rebuild::Done(count) ==> count == total,
        rebuilt(offset, n) matches Rebuild::From(next) ==> offset < next && next <= total,
{
}

} // verus!
