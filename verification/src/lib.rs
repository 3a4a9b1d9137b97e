//! Lottery draw history: an in-memory draw store with idempotent ingestion,
//! number frequency statistics, shuffled pick generation and scoring of picks
//! against the history. Every function carries a contract. The few contracts
//! that speak for a function of an outside crate are believed; all others are
//! proved.

pub mod cli;
pub mod models;
pub mod text;
pub mod numbers;
pub mod dates;
pub mod db;
pub mod sync_laws;
pub mod picks;
pub mod logic;
