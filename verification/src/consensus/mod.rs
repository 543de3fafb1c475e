//! Consensus rules.

pub mod aggregator;
pub mod agreement;
pub mod committee;
pub mod engine;
pub mod equivocation;
pub mod errors;
pub mod evidence;
pub mod hooks;
pub mod message_handler;
pub mod metrics;
pub mod pacemaker;
pub mod persistence;
pub mod recovery;
pub mod runner;
pub mod safety;
pub mod store;
pub mod timeout;
pub mod view_change;
