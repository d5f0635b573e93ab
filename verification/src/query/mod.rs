//! Queries in SQL.

pub mod guard_laws;
pub mod sql_guard;
