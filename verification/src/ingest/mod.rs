//! What turns raw material into memories: Markdown chunking and webhook promotion.

pub mod chunk;
pub mod chunk_laws;
pub mod edit_laws;
pub mod fidelity;
pub mod heading_laws;
pub mod promote;
pub mod promote_laws;
