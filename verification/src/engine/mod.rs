//! The decisions of the memory engine: what a write, a search or a sweep comes to, given what the
//! stores hold. Reading and writing the stores is left to the caller.

pub mod apply;
pub mod apply_laws;
pub mod attachments;
pub mod backup;
pub mod batch;
pub mod consolidate;
pub mod documents;
pub mod document_laws;
pub mod extract;
pub mod fold_laws;
pub mod graph;
pub mod graph_laws;
pub mod plan;
pub mod import_laws;
pub mod keeping_laws;
pub mod plan_laws;
pub mod ranking;
pub mod ranking_laws;
pub mod retention;
pub mod review;
pub mod review_laws;
pub mod search;
pub mod search_laws;
pub mod sessions;
pub mod startup;
pub mod tenants;
pub mod upkeep_laws;
