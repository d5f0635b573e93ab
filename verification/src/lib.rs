//! Core rules of a memory store for agents, as verified functions on plain values.

pub mod seqs;
pub mod text;
pub mod text_laws;
pub mod time;
pub mod ingest;
pub mod error;
pub mod json;
pub mod json_laws;
pub mod ids;
pub mod score;
pub mod memory;
pub mod runtime;
pub mod query;
pub mod engine;
