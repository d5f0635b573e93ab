//! Durable agent runs: their records, the agent loop, workflows, approvals and triggers.

pub mod agent;
pub mod agent_loop;
pub mod replay_laws;
pub mod run_laws;
pub mod agent_laws;
pub mod ledger;
pub mod types;
pub mod workflow;
pub mod workflow_run;
