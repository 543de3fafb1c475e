//! The data that consensus exchanges and stores.

pub mod block;
pub mod certificate;
pub mod committee;
pub mod context;
pub mod messages;
pub mod settings;
pub mod vote;
