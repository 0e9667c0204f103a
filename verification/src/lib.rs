//! Detection of exploitable access control gaps in CosmWasm contracts.

pub mod dense;
pub mod mir;
pub mod graph;
pub mod laws;
pub mod text;
pub mod mir_util;
pub mod writes;
pub mod cosmwasm;
pub mod auth_gate;
pub mod storage_inventory;
pub mod call_graph;
pub mod sender_taint;
pub mod sender_comparisons;
pub mod predicates;
pub mod auth_storage;
pub mod gating;
pub mod taint;
pub mod evaluation;
pub mod order;
pub mod report;
pub mod debug;
pub mod driver;
pub mod pipeline;
