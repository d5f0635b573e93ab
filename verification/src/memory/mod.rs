//! What a memory is, and the rules that memories are held to.

pub mod cognition;
pub mod event;
pub mod facts;
pub mod fact_laws;
pub mod lexical;
pub mod lexical_laws;
pub mod query_log;
pub mod schema;
pub mod schema_laws;
